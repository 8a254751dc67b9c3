use data_structs::data_structures::trie::Trie;

fn key(s: &str) -> Vec<char> {
    s.chars().collect()
}

#[test]
fn insert_and_get() {
    let mut trie = Trie::new();

    assert_eq!(trie.get(&key("")), None);
    assert_eq!(trie.get(&key("abc")), None);

    trie.insert(&key("bar"), 5);
    trie.insert(&key("barz"), 10);
    trie.insert(&key("bark"), 20);

    assert_eq!(trie.get(&key("ba")), None);
    assert_eq!(trie.get(&key("bar")), Some(&5));
    assert_eq!(trie.get(&key("barz")), Some(&10));
    assert_eq!(trie.get(&key("bark")), Some(&20));
}

#[test]
fn insert_replaces_and_empty_key() {
    let mut trie: Trie<u32> = Trie::default();
    trie.insert(&key(""), 1);
    assert_eq!(trie.get(&key("")), Some(&1));
    trie.insert(&key("ab"), 2);
    trie.insert(&key("ab"), 3);
    assert_eq!(trie.get(&key("ab")), Some(&3));
    assert_eq!(trie.get(&key("a")), None);
    assert_eq!(trie.get(&key("abc")), None);
    assert_eq!(trie.get(&key("")), Some(&1));
}
