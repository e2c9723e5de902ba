use rand::distr::{Distribution, Uniform};
use rand::Rng;
use search::trie::Trie;
use std::collections::HashSet;

fn generate_random_string(length: usize) -> String {
    let mut rng = rand::rng();
    let alphabet = Uniform::new_inclusive(b'a', b'z').unwrap();
    (0..length).map(|_| alphabet.sample(&mut rng) as char).collect()
}

fn generate_random_strings(num_strings: usize, max_length: usize) -> Vec<String> {
    let mut rng = rand::rng();
    (0..num_strings)
        .map(|_| {
            let length = rng.random_range(1..=max_length);
            generate_random_string(length)
        })
        .collect()
}

fn node_of(trie: &Trie, path: &str) -> usize {
    let mut node = 0;
    for ch in path.chars() {
        node = trie.nodes[node].child(trie.char_as_idx(ch)).expect("Node should exist");
    }
    node
}

fn assert_suffix_link(trie: &Trie, node: usize, expected_link: Option<usize>, message: &str) {
    assert_eq!(trie.nodes[node].link, expected_link, "{}", message);
}

#[test]
fn trie_search_test() {
    let mut trie = Trie::new();
    trie.add_word("hasfailed").unwrap();
    trie.add_word("ed").unwrap();
    trie.add_word("failed").unwrap();
    trie.add_word("atabase").unwrap();
    trie.set_suffix_links();
    let res: HashSet<String> = trie.search("abasehasfailed").into_iter().collect();
    assert!(res.get("hasfailed").is_some());
    assert!(res.get("ed").is_some());
    assert!(res.get("failed").is_some());
}

#[test]
fn random_patterns_are_found_where_they_stand() {
    let mut rng = rand::rng();
    for _ in 0..20 {
        let patterns = generate_random_strings(50, 4);
        let mut trie = Trie::new();
        for pattern in patterns.iter() {
            trie.add_word(pattern).unwrap();
        }
        trie.set_suffix_links();
        let length = rng.random_range(0..=300);
        let text = generate_random_string(length);
        let found: HashSet<String> = trie.search(&text).into_iter().collect();
        let counts = trie.search_occurences(&text);
        for pattern in patterns.iter() {
            let copies = patterns.iter().filter(|p| *p == pattern).count();
            let starts = (0..text.len())
                .filter(|&i| text[i..].starts_with(pattern.as_str()))
                .count();
            assert_eq!(found.contains(pattern), starts > 0);
            let counted = counts.iter().find(|(w, _)| w == pattern).map(|(_, n)| *n);
            assert_eq!(counted.unwrap_or(0), copies * starts);
        }
        assert_eq!(found.len(), counts.len());
    }
}

#[test]
fn trie_char_set_depth_one_test() {
    let mut trie = Trie::new();
    for c in 'a'..='z' {
        trie.add_word(&c.to_string()).unwrap();
    }

    let root = &trie.nodes[0];
    for (index, expected_char) in ('a'..='z').enumerate() {
        let slot = trie.char_as_idx(expected_char);
        assert_eq!(slot, 'a' as usize + index);
        let node = root.child(slot).expect("Node should exist");
        assert_eq!(
            trie.nodes[node].value,
            Some(expected_char),
            "Mismatch at index {}",
            index
        );
        assert_eq!(trie.nodes[node].children, vec![0usize; 128]);
    }
    assert_eq!(trie.nodes.len(), 27);
}

#[test]
fn trie_char_set_depth_max_test() {
    let mut trie = Trie::new();
    let mut word = String::new();
    for c in 'a'..='z' {
        word.push(c);
        trie.add_word(&word).unwrap();
    }

    let mut current_node = 0;
    for (index, expected_char) in ('a'..='z').enumerate() {
        let slot = trie.char_as_idx(expected_char);
        let node = trie.nodes[current_node].child(slot).expect("Node should exist");
        assert_eq!(
            trie.nodes[node].value.unwrap(),
            expected_char,
            "Mismatch at index {} found: {}",
            index,
            trie.nodes[node].value.unwrap()
        );
        assert_eq!(trie.nodes[node].output, vec![index]);
        current_node = node;
    }
    assert_eq!(trie.nodes.len(), 27);
}

#[test]
fn trie_suffix_links_test() {
    let mut trie = Trie::new();
    trie.add_word("bab").unwrap();
    trie.add_word("a").unwrap();
    trie.add_word("ab").unwrap();
    trie.add_word("bc").unwrap();
    trie.add_word("bca").unwrap();
    trie.add_word("caa").unwrap();
    trie.set_suffix_links();

    let root = 0;
    let a = node_of(&trie, "a");
    let b = node_of(&trie, "b");
    let c = node_of(&trie, "c");
    let ba = node_of(&trie, "ba");
    let ab = node_of(&trie, "ab");
    let bab = node_of(&trie, "bab");
    let bc = node_of(&trie, "bc");
    let bca = node_of(&trie, "bca");
    let ca = node_of(&trie, "ca");
    let caa = node_of(&trie, "caa");

    assert_suffix_link(&trie, root, None, "Root should have no suffix link.");
    assert_suffix_link(&trie, a, Some(root), "'a' should link to root.");
    assert_suffix_link(&trie, b, Some(root), "'b' should link to root.");
    assert_suffix_link(&trie, c, Some(root), "'c' should link to root.");
    assert_suffix_link(&trie, ab, Some(b), "'ab' should link to 'b'.");
    assert_suffix_link(&trie, bab, Some(ab), "'bab' should link to 'ab'.");
    assert_suffix_link(&trie, bc, Some(c), "'bc' should link to 'c'.");
    assert_suffix_link(&trie, bca, Some(ca), "'bca' should link to 'ca'.");
    assert_suffix_link(&trie, caa, Some(a), "'caa' should link to 'a'.");
    assert_suffix_link(&trie, ba, Some(a), "'ba' should link to 'a'.");
    assert_suffix_link(&trie, ca, Some(a), "'ca' should link to 'a'.");
}
