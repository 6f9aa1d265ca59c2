use prefix_proxy::tri_node::Trie;

#[test]
fn test_trie_node() {
    let keys = ["foo", "bar"];

    let mut trie = Trie::default();
    for key in keys {
        trie.insert(key);
    }

    let test_str = "foobar";
    let Some(matched_part) = trie.search(test_str) else {
        panic!("No match found");
    };
    assert_eq!(matched_part, "foo");
}

#[test]
fn test_trie_node_fail_case() {
    let keys = ["foo", "bar", "foos"];

    let mut trie = Trie::default();
    for key in keys {
        trie.insert(key);
    }

    let test_str = "fobar";
    let None = trie.search(test_str) else {
        panic!("No match found");
    };
}

#[test]
fn test_empty_trie_matches_nothing() {
    let trie = Trie::new();
    assert!(trie.search("").is_none());
    assert!(trie.search("anything").is_none());
    assert!(trie.search("/auth").is_none());
}

#[test]
fn test_query_shorter_than_any_prefix() {
    let mut trie = Trie::new();
    trie.insert("/auth");
    assert!(trie.search("/au").is_none());
    assert!(trie.search("").is_none());
}

#[test]
fn test_shorter_registered_prefix_wins() {
    let mut trie = Trie::new();
    trie.insert("foos");
    trie.insert("foo");
    // The walk stops at the first terminal node: "foo" is met before "foos".
    assert_eq!(trie.search("foosball").unwrap(), "foo");
}

#[test]
fn test_insert_is_idempotent() {
    let mut trie = Trie::new();
    trie.insert("/task");
    trie.insert("/task");
    assert_eq!(trie.search("/task/7").unwrap(), "/task");
    assert!(trie.search("/tas").is_none());
}

#[test]
fn test_exact_length_query_matches() {
    let mut trie = Trie::new();
    trie.insert("/auth");
    assert_eq!(trie.search("/auth").unwrap(), "/auth");
}

#[test]
fn test_unicode_prefixes() {
    let mut trie = Trie::new();
    trie.insert("/héllo");
    assert_eq!(trie.search("/héllo/x").unwrap(), "/héllo");
    assert!(trie.search("/hallo").is_none());
}
