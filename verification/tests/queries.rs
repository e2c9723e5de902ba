use search::alphabet::{symbol_index, ALPHABET_SIZE};
use search::insert::{first_outside, OutOfAlphabet};
use search::node::Node;
use search::str_match::{RefusedPattern, StrMatch, TrieType};
use search::trie::Trie;

fn built(patterns: &[&str]) -> Trie {
    let mut trie = Trie::new();
    for (index, pattern) in patterns.iter().enumerate() {
        assert_eq!(trie.add_word(pattern), Ok(index));
    }
    trie.set_suffix_links();
    trie
}

fn strings(words: &[&str]) -> Vec<String> {
    words.iter().map(|w| w.to_string()).collect()
}

fn pairs(entries: &[(&str, usize)]) -> Vec<(String, usize)> {
    entries.iter().map(|(w, n)| (w.to_string(), *n)).collect()
}

fn starts(pattern: &str, text: &str) -> usize {
    let p: Vec<char> = pattern.chars().collect();
    let t: Vec<char> = text.chars().collect();
    if p.len() > t.len() {
        return 0;
    }
    (0..=t.len() - p.len()).filter(|&i| t[i..i + p.len()] == p[..]).count()
}

fn node_at(trie: &Trie, path: &str) -> usize {
    let mut node = 0;
    for ch in path.chars() {
        node = trie.nodes[node].child(trie.char_as_idx(ch)).unwrap();
    }
    node
}

#[test]
fn search_reports_in_order_of_first_report() {
    let trie = built(&["hasfailed", "ed", "failed", "atabase"]);
    assert_eq!(
        trie.search("abasehasfailed"),
        strings(&["hasfailed", "failed", "ed"])
    );
}

#[test]
fn search_leaves_out_what_is_not_in_the_text() {
    let trie = built(&["hasfailed", "ed", "failed", "atabase"]);
    let found = trie.search("abasehasfailed");
    assert!(!found.contains(&"atabase".to_string()));
    assert_eq!(trie.search("database"), strings(&["atabase"]));
}

#[test]
fn search_results_are_patterns() {
    let patterns = ["he", "she", "his", "hers", "e"];
    let trie = built(&patterns);
    for text in ["ushers", "hishershe", "", "xyz", "eee"] {
        for word in trie.search(text) {
            assert!(patterns.contains(&word.as_str()));
        }
    }
}

#[test]
fn search_finds_every_pattern_in_the_text() {
    let patterns = ["he", "she", "his", "hers", "e", "ushers", "rs"];
    let trie = built(&patterns);
    for text in ["ushers", "hishershe", "h", "sh", "ahishers", "he he"] {
        let found = trie.search(text);
        for pattern in patterns {
            assert_eq!(found.contains(&pattern.to_string()), text.contains(pattern));
        }
    }
}

#[test]
fn search_returns_each_string_once() {
    let trie = built(&["ab", "b", "ab"]);
    assert_eq!(trie.search("ababab"), strings(&["ab", "b"]));
}

#[test]
fn counts_are_the_numbers_of_starting_positions() {
    let patterns = ["aba", "ab", "ba", "a", "bb"];
    let trie = built(&patterns);
    for text in ["ababa", "aaaa", "abba", "b", "babab"] {
        let counts = trie.search_occurences(text);
        for pattern in patterns {
            let expected = starts(pattern, text);
            let got = counts.iter().find(|(w, _)| w == pattern).map(|(_, n)| *n);
            if expected == 0 {
                assert_eq!(got, None);
            } else {
                assert_eq!(got, Some(expected));
            }
        }
    }
}

#[test]
fn counts_include_overlaps() {
    let trie = built(&["aba"]);
    assert_eq!(trie.search_occurences("ababa"), pairs(&[("aba", 2)]));
    let trie = built(&["aa"]);
    assert_eq!(trie.search_occurences("aaaa"), pairs(&[("aa", 3)]));
}

#[test]
fn counts_add_up_over_repeated_patterns() {
    let trie = built(&["a", "aa", "a"]);
    assert_eq!(trie.search_internal("aaa"), vec![0, 2, 1, 0, 2, 1, 0, 2]);
    assert_eq!(trie.search_occurences("aaa"), pairs(&[("a", 6), ("aa", 2)]));
    assert_eq!(trie.search("aaa"), strings(&["a", "aa"]));
}

#[test]
fn queries_give_the_same_answer_each_time() {
    let trie = built(&["he", "she", "his", "hers"]);
    let first = trie.search("ushers");
    let first_counts = trie.search_occurences("ushers");
    let nodes_before = trie.nodes.len();
    for _ in 0..3 {
        assert_eq!(trie.search("ushers"), first);
        assert_eq!(trie.search_occurences("ushers"), first_counts);
    }
    assert_eq!(first, strings(&["she", "he", "hers"]));
    assert_eq!(first_counts, pairs(&[("she", 1), ("he", 1), ("hers", 1)]));
    assert_eq!(trie.nodes.len(), nodes_before);
    assert_eq!(trie.words, strings(&["he", "she", "his", "hers"]));
}

#[test]
fn no_patterns_no_results() {
    let mut trie = Trie::new();
    trie.set_suffix_links();
    for text in ["", "a", "any text at all"] {
        assert_eq!(trie.search(text), Vec::<String>::new());
        assert_eq!(trie.search_occurences(text), Vec::<(String, usize)>::new());
        assert_eq!(trie.search_internal(text), Vec::<usize>::new());
    }
}

#[test]
fn empty_text_no_results() {
    let trie = built(&["a", "", "b"]);
    assert_eq!(trie.search(""), Vec::<String>::new());
    assert_eq!(trie.search_occurences(""), Vec::<(String, usize)>::new());
}

#[test]
fn empty_pattern_is_reported_after_each_symbol() {
    let trie = built(&["", "b"]);
    assert_eq!(trie.search_internal("abc"), vec![0, 1, 0, 0]);
    assert_eq!(trie.search("abc"), strings(&["", "b"]));
    assert_eq!(trie.search_occurences("abc"), pairs(&[("", 3), ("b", 1)]));
}

#[test]
fn symbols_outside_the_alphabet_in_the_text_match_nothing() {
    let trie = built(&["ab", "b"]);
    assert_eq!(trie.search_occurences("a\u{e9}b ab"), pairs(&[("b", 2), ("ab", 1)]));
    assert_eq!(trie.search("\u{141}\u{100}"), Vec::<String>::new());
    assert_eq!(trie.search("a\u{80}b"), strings(&["b"]));
}

#[test]
fn pattern_with_symbol_outside_the_alphabet_is_refused() {
    let mut trie = Trie::new();
    assert_eq!(trie.add_word("ab"), Ok(0));
    let nodes = trie.nodes.len();
    assert_eq!(trie.add_word("ab\u{e9}c\u{141}"), Err(OutOfAlphabet { symbol: '\u{e9}' }));
    assert_eq!(trie.add_word("\u{80}"), Err(OutOfAlphabet { symbol: '\u{80}' }));
    assert_eq!(trie.nodes.len(), nodes);
    assert_eq!(trie.words, strings(&["ab"]));
    assert_eq!(trie.add_word("\u{7f}"), Ok(1));
    trie.set_suffix_links();
    assert_eq!(trie.search("xab\u{7f}"), strings(&["ab", "\u{7f}"]));
}

#[test]
fn first_outside_finds_the_first_such_symbol() {
    assert_eq!(first_outside(""), None);
    assert_eq!(first_outside("plain ascii \u{0}\u{7f}"), None);
    assert_eq!(first_outside("a\u{100}\u{e9}"), Some('\u{100}'));
}

#[test]
fn symbol_index_is_the_code_point() {
    assert_eq!(ALPHABET_SIZE, 128);
    assert_eq!(symbol_index('a'), 97);
    assert_eq!(symbol_index('\u{0}'), 0);
    assert_eq!(symbol_index('\u{7f}'), 127);
    assert_eq!(symbol_index('\u{141}'), 0x141);
    let trie = Trie::new();
    assert_eq!(trie.char_as_idx('z'), 122);
    assert_eq!(trie.char_as_idx('\u{10ffff}'), 0x10ffff);
}

#[test]
fn new_nodes_are_blank() {
    let node = Node::new('q');
    assert_eq!(node.value, Some('q'));
    assert_eq!(node.children, vec![0usize; ALPHABET_SIZE]);
    assert!(node.output.is_empty());
    assert_eq!(node.link, None);
    assert_eq!(node.child(5), None);
    let root = Node::default();
    assert_eq!(root.value, None);
    assert_eq!(root.children, vec![0usize; ALPHABET_SIZE]);
    assert!(root.output.is_empty());
    assert_eq!(root.link, None);
}

#[test]
fn new_trie_is_a_lone_root() {
    let trie = Trie::new();
    assert_eq!(trie.nodes.len(), 1);
    assert!(trie.words.is_empty());
    assert!(trie.ends.is_empty());
    assert_eq!(trie.nodes[0].value, None);
    assert_eq!(trie.nodes[0].link, None);
}

#[test]
fn patterns_share_their_common_prefixes() {
    let mut trie = Trie::new();
    assert_eq!(trie.add_word("abc"), Ok(0));
    assert_eq!(trie.nodes.len(), 4);
    assert_eq!(trie.add_word("abd"), Ok(1));
    assert_eq!(trie.nodes.len(), 5);
    assert_eq!(trie.add_word("ab"), Ok(2));
    assert_eq!(trie.add_word("abc"), Ok(3));
    assert_eq!(trie.nodes.len(), 5);
    let ab = node_at(&trie, "ab");
    let abc = node_at(&trie, "abc");
    assert_eq!(trie.nodes[ab].output, vec![2]);
    assert_eq!(trie.nodes[abc].output, vec![0, 3]);
    assert_eq!(trie.ends, vec![abc, node_at(&trie, "abd"), ab, abc]);
    assert_eq!(trie.words, strings(&["abc", "abd", "ab", "abc"]));
}

#[test]
fn add_child_hangs_a_node_in_the_slot_of_its_symbol() {
    let mut trie = Trie::new();
    let x = trie.add_child(0, 'x');
    assert_eq!(x, 1);
    assert_eq!(trie.nodes[0].child('x' as usize), Some(1));
    assert_eq!(trie.nodes[1].value, Some('x'));
    let y = trie.add_child(x, 'y');
    assert_eq!(y, 2);
    assert_eq!(trie.nodes[1].child('y' as usize), Some(2));
    assert_eq!(trie.nodes.len(), 3);
}

#[test]
fn follow_suffix_links_takes_the_longest_ending() {
    let trie = built(&["bab", "a", "ab", "bc", "bca", "caa"]);
    let mut cursor = node_at(&trie, "ab");
    trie.follow_suffix_links(&mut cursor, 'c' as usize);
    assert_eq!(cursor, node_at(&trie, "bc"));
    trie.follow_suffix_links(&mut cursor, 'a' as usize);
    assert_eq!(cursor, node_at(&trie, "bca"));
    trie.follow_suffix_links(&mut cursor, 'a' as usize);
    assert_eq!(cursor, node_at(&trie, "caa"));
    trie.follow_suffix_links(&mut cursor, 'x' as usize);
    assert_eq!(cursor, 0);
    trie.follow_suffix_links(&mut cursor, 'x' as usize);
    assert_eq!(cursor, 0);
}

#[test]
fn advance_goes_to_the_root_outside_the_alphabet() {
    let trie = built(&["bab", "a", "ab"]);
    let mut cursor = 0;
    trie.advance(&mut cursor, 'b');
    trie.advance(&mut cursor, 'a');
    assert_eq!(cursor, node_at(&trie, "ba"));
    trie.advance(&mut cursor, 'a');
    assert_eq!(cursor, node_at(&trie, "a"));
    trie.advance(&mut cursor, '\u{e9}');
    assert_eq!(cursor, 0);
}

#[test]
fn collect_outputs_walks_the_links_up_to_the_root() {
    let trie = built(&["bab", "a", "ab", "b", ""]);
    let mut emitted = vec![7];
    trie.collect_outputs(node_at(&trie, "bab"), &mut emitted);
    assert_eq!(emitted, vec![7, 0, 2, 3, 4]);
    trie.collect_outputs(0, &mut emitted);
    assert_eq!(emitted, vec![7, 0, 2, 3, 4, 4]);
}

#[test]
fn set_link_changes_one_link() {
    let mut trie = Trie::new();
    trie.add_word("ab").unwrap();
    trie.set_link(2, Some(1));
    assert_eq!(trie.nodes[2].link, Some(1));
    assert_eq!(trie.nodes[1].link, None);
    trie.set_link(2, None);
    assert_eq!(trie.nodes[2].link, None);
}

#[test]
fn links_can_be_computed_again_after_more_patterns() {
    let mut trie = Trie::new();
    trie.add_word("ab").unwrap();
    trie.set_suffix_links();
    assert_eq!(trie.search("cab"), strings(&["ab"]));
    trie.add_word("b").unwrap();
    trie.add_word("ca").unwrap();
    trie.set_suffix_links();
    assert_eq!(trie.nodes[node_at(&trie, "ab")].link, Some(node_at(&trie, "b")));
    assert_eq!(trie.nodes[node_at(&trie, "ca")].link, Some(node_at(&trie, "a")));
    assert_eq!(trie.search("cab"), strings(&["ca", "ab", "b"]));
}

#[test]
fn trie_type_forwards_to_the_trie() {
    let mut trie = TrieType::ArrayTrie(Trie::new());
    assert_eq!(trie.add_word("he"), Ok(0));
    assert_eq!(trie.add_word("she"), Ok(1));
    assert_eq!(trie.add_word("sh\u{e9}"), Err(OutOfAlphabet { symbol: '\u{e9}' }));
    trie.set_suffix_links();
    assert_eq!(trie.search("she"), strings(&["she", "he"]));
    assert_eq!(trie.search_occurences("shehe"), pairs(&[("she", 1), ("he", 2)]));
}

#[test]
fn matcher_is_built_from_a_list_of_patterns() {
    let matcher = StrMatch::new(strings(&["hasfailed", "ed", "failed", "atabase"])).unwrap();
    assert_eq!(
        matcher.search_substr("abasehasfailed"),
        strings(&["hasfailed", "failed", "ed"])
    );
    assert_eq!(
        matcher.search_substr_count("failed and failed"),
        pairs(&[("failed", 2), ("ed", 2)])
    );
    let empty = StrMatch::new(Vec::new()).unwrap();
    assert_eq!(empty.search_substr("anything"), Vec::<String>::new());
    assert_eq!(empty.search_substr_count("anything"), Vec::<(String, usize)>::new());
}

#[test]
fn matcher_refuses_a_list_with_a_symbol_outside_the_alphabet() {
    let refused = StrMatch::new(strings(&["ok", "fine", "na\u{ef}ve", "\u{fc}"]));
    assert_eq!(refused.err(), Some(RefusedPattern { index: 2, symbol: '\u{ef}' }));
}
