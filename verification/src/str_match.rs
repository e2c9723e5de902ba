use vstd::prelude::*;
use crate::alphabet::all_in_alphabet;
use crate::insert::{is_first_outside, OutOfAlphabet};
use crate::matching::{
    count_of, end_count, ends_within, first_seen, keys_of, multiplicity, reported, views_of,
};
use crate::trie::Trie;

verus! {

/// The representations of the automaton; the array-based trie is the one
/// there is.
pub enum TrieType {
    ArrayTrie(Trie),
}

impl TrieType {
    /// The trie behind the representation.
    pub open spec fn trie(&self) -> Trie {
        match self {
            TrieType::ArrayTrie(trie) => *trie,
        }
    }

    /// The patterns, by index.
    pub open spec fn patterns(&self) -> Seq<Seq<char>> {
        match self {
            TrieType::ArrayTrie(trie) => trie.patterns(),
        }
    }

    /// The invariant of the representation, links aside.
    pub open spec fn wf(&self) -> bool {
        match self {
            TrieType::ArrayTrie(trie) => trie.wf(),
        }
    }

    /// Every node but the root has its failure link.
    pub open spec fn linked(&self) -> bool {
        match self {
            TrieType::ArrayTrie(trie) => trie.linked(),
        }
    }

    /// Registers `word` as the next pattern and returns its index.
    pub fn add_word(&mut self, word: &str) -> (res: Result<usize, OutOfAlphabet>)
        requires
            old(self).wf(),
        ensures
            final(self).wf(),
            match res {
                Ok(index) => {
                    &&& all_in_alphabet(word@)
                    &&& index == old(self).patterns().len()
                    &&& final(self).patterns() == old(self).patterns().push(word@)
                    &&& final(self).trie().extends(&old(self).trie())
                    &&& forall|s: Seq<char>| #[trigger]
                        final(self).trie().has_path(s) <==> old(self).trie().has_path(s)
                            || s.is_prefix_of(word@)
                },
                Err(e) => {
                    &&& is_first_outside(word@, e.symbol)
                    &&& *final(self) == *old(self)
                },
            },
    {
        match self {
            TrieType::ArrayTrie(trie) => trie.add_word(word),
        }
    }

    /// Computes the failure link of every node.
    pub fn set_suffix_links(&mut self)
        requires
            old(self).wf(),
        ensures
            final(self).wf(),
            final(self).linked(),
            final(self).patterns() == old(self).patterns(),
            final(self).trie().same_but_links(&old(self).trie()),
    {
        match self {
            TrieType::ArrayTrie(trie) => {
                trie.set_suffix_links();
                assert(trie.patterns() =~= old(self).patterns());
            },
        }
    }

    /// The patterns that stand in `text`, each string once.
    pub fn search(&self, text: &str) -> (found: Vec<String>)
        requires
            self.wf(),
            self.linked(),
        ensures
            views_of(found@) == first_seen(reported(self.patterns(), text@)),
            views_of(found@).no_duplicates(),
            forall|w: Seq<char>| #[trigger]
                views_of(found@).contains(w) <==> self.patterns().contains(w) && ends_within(
                    w,
                    text@,
                ),
    {
        match self {
            TrieType::ArrayTrie(trie) => trie.search(text),
        }
    }

    /// For each pattern that stands in `text` the string and the number of
    /// times it is reported.
    pub fn search_occurences(&self, text: &str) -> (counts: Vec<(String, usize)>)
        requires
            self.wf(),
            self.linked(),
        ensures
            keys_of(counts@) == first_seen(reported(self.patterns(), text@)),
            keys_of(counts@).no_duplicates(),
            forall|w: Seq<char>| #[trigger]
                keys_of(counts@).contains(w) <==> self.patterns().contains(w) && ends_within(
                    w,
                    text@,
                ),
            forall|p: int|
                0 <= p < counts.len() ==> (#[trigger] counts[p]).1 == count_of(
                    reported(self.patterns(), text@),
                    counts[p].0@,
                ),
            forall|p: int|
                0 <= p < counts.len() ==> (#[trigger] counts[p]).1 == multiplicity(
                    self.patterns(),
                    counts[p].0@,
                ) * end_count(counts[p].0@, text@, text@.len()),
    {
        match self {
            TrieType::ArrayTrie(trie) => trie.search_occurences(text),
        }
    }
}

/// A list of patterns was refused: one of them holds a symbol outside the
/// alphabet.
#[derive(Debug, Clone, Copy, PartialEq, Eq)]
pub struct RefusedPattern {
    /// The place of the first such pattern in the list.
    pub index: usize,
    /// The first such symbol of that pattern.
    pub symbol: char,
}

/// A matcher for a fixed list of patterns, ready for queries.
pub struct StrMatch {
    trie: TrieType,
}

impl StrMatch {
    #[verifier::type_invariant]
    spec fn ready(self) -> bool {
        self.trie.wf() && self.trie.linked()
    }

    /// The patterns of the matcher, in the order given.
    pub closed spec fn patterns(&self) -> Seq<Seq<char>> {
        self.trie.patterns()
    }

    /// Builds the matcher for `patterns`: every pattern is added, then the
    /// failure links are computed. A list with a pattern that holds a symbol
    /// outside the alphabet is refused.
    pub fn new(patterns: Vec<String>) -> (res: Result<StrMatch, RefusedPattern>)
        ensures
            match res {
                Ok(matcher) => {
                    &&& matcher.patterns() == views_of(patterns@)
                    &&& forall|i: int|
                        0 <= i < patterns.len() ==> all_in_alphabet(#[trigger] patterns[i]@)
                },
                Err(e) => {
                    &&& e.index < patterns.len()
                    &&& is_first_outside(patterns[e.index as int]@, e.symbol)
                    &&& forall|i: int|
                        0 <= i < e.index ==> all_in_alphabet(#[trigger] patterns[i]@)
                },
            },
    {
        let mut trie = TrieType::ArrayTrie(Trie::new());
        let mut i: usize = 0;
        while i < patterns.len()
            invariant
                i <= patterns.len(),
                trie.wf(),
                trie.patterns() == views_of(patterns@.take(i as int)),
                forall|k: int| 0 <= k < i ==> all_in_alphabet(#[trigger] patterns[k]@),
            decreases patterns.len() - i,
        {
            match trie.add_word(patterns[i].as_str()) {
                Ok(_) => {},
                Err(e) => {
                    return Err(RefusedPattern { index: i, symbol: e.symbol });
                },
            }
            proof {
                assert(views_of(patterns@.take(i + 1)) =~= views_of(patterns@.take(i as int)).push(
                    patterns[i as int]@,
                ));
            }
            i += 1;
        }
        trie.set_suffix_links();
        proof {
            assert(patterns@.take(patterns.len() as int) =~= patterns@);
        }
        Ok(StrMatch { trie })
    }

    /// The patterns that stand in `text`, each string once.
    pub fn search_substr(&self, text: &str) -> (found: Vec<String>)
        ensures
            views_of(found@) == first_seen(reported(self.patterns(), text@)),
            views_of(found@).no_duplicates(),
            forall|w: Seq<char>| #[trigger]
                views_of(found@).contains(w) <==> self.patterns().contains(w) && ends_within(
                    w,
                    text@,
                ),
    {
        proof {
            use_type_invariant(self);
        }
        self.trie.search(text)
    }

    /// For each pattern that stands in `text` the string and the number of
    /// times it is reported.
    pub fn search_substr_count(&self, text: &str) -> (counts: Vec<(String, usize)>)
        ensures
            keys_of(counts@) == first_seen(reported(self.patterns(), text@)),
            keys_of(counts@).no_duplicates(),
            forall|w: Seq<char>| #[trigger]
                keys_of(counts@).contains(w) <==> self.patterns().contains(w) && ends_within(
                    w,
                    text@,
                ),
            forall|p: int|
                0 <= p < counts.len() ==> (#[trigger] counts[p]).1 == count_of(
                    reported(self.patterns(), text@),
                    counts[p].0@,
                ),
            forall|p: int|
                0 <= p < counts.len() ==> (#[trigger] counts[p]).1 == multiplicity(
                    self.patterns(),
                    counts[p].0@,
                ) * end_count(counts[p].0@, text@, text@.len()),
    {
        proof {
            use_type_invariant(self);
        }
        self.trie.search_occurences(text)
    }
}

} // verus!
