use arithmetic::string::trie_st::TrieST;

#[test]
fn trie_st_test() {
    let mut trie_st = TrieST::new();
    trie_st.put("abc", 1);
    trie_st.put("cbd", 2);
    trie_st.put("bde", 3);
    trie_st.put("def", 4);

    assert_eq!(trie_st.get("def"), &Some(4));
    assert_eq!(trie_st.keys(), ["abc", "bde", "cbd", "def"]);
}

#[test]
fn trie_st_prefixes_and_updates() {
    let mut trie = TrieST::new();
    assert_eq!(trie.get("a"), &None);
    assert!(trie.keys().is_empty());
    trie.put("ab", 1);
    // a prefix of a key is no key
    assert_eq!(trie.get("a"), &None);
    assert_eq!(trie.get("abc"), &None);
    trie.put("a", 2);
    trie.put("", 0);
    trie.put("ab", 3);
    assert_eq!(trie.get("ab"), &Some(3));
    assert_eq!(trie.get(""), &Some(0));
    assert_eq!(trie.keys(), ["", "a", "ab"]);
}

#[test]
fn trie_st_lists_plain_keys_only() {
    let mut trie = TrieST::new();
    trie.put("z", 1);
    // a character with a code between 128 and 255 can be stored
    trie.put("\u{e9}", 2);
    trie.put("a\u{e9}", 3);
    assert_eq!(trie.get("\u{e9}"), &Some(2));
    assert_eq!(trie.get("a\u{e9}"), &Some(3));
    // and is left out of the list
    assert_eq!(trie.keys(), ["z"]);
}
