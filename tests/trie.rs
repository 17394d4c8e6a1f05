use trie::Trie;

#[test]
fn it_works() {
    let mut sut = Trie::new();
    sut.insert("hello", 1);
    sut.insert("hi", 2);
    sut.insert("hey", 3);
    sut.insert("world", 4);

    assert!(!sut.is_empty());
    assert_eq!(sut.len(), 4);

    assert!(!sut.contains_key(""));
    assert_eq!(sut.get(""), None);

    assert!(sut.contains_key("hi"));
    assert_eq!(sut.get("hi"), Some(&2));

    assert!(!sut.contains_key("he"));
    assert_eq!(sut.get(""), None);

    assert!(sut.contains_key("hey"));
    assert_eq!(sut.get("hey"), Some(&3));

    assert!(!sut.contains_key("hell"));
    assert_eq!(sut.get(""), None);

    assert!(sut.contains_key("hello"));
    assert_eq!(sut.get("hello"), Some(&1));

    assert!(sut.contains_key("world"));
    assert_eq!(sut.get("world"), Some(&4));

    assert!(!sut.contains_key("hii"));
    assert_eq!(sut.get(""), None);

    assert!(!sut.contains_key("word"));
    assert_eq!(sut.get(""), None);

    assert_eq!(sut.remove("hey"), Some(3));
    assert_eq!(sut.len(), 3);

    assert!(sut.contains_key("hi"));
    assert_eq!(sut.get("hi"), Some(&2));

    assert!(sut.contains_key("hello"));
    assert_eq!(sut.get("hello"), Some(&1));

    assert!(sut.contains_key("world"));
    assert_eq!(sut.get("world"), Some(&4));
}

#[test]
fn new_is_empty() {
    let t: Trie<u32> = Trie::new();
    assert!(t.is_empty());
    assert_eq!(t.len(), 0);
    assert_eq!(t.get("a"), None);
    assert_eq!(t.get(""), None);
    let d: Trie<u32> = Trie::default();
    assert!(d.is_empty());
}

#[test]
fn insert_then_get() {
    let mut t = Trie::new();
    assert_eq!(t.insert("abc", 10), None);
    assert_eq!(t.get("abc"), Some(&10));
    assert!(t.contains_key("abc"));
    assert_eq!(t.len(), 1);
}

#[test]
fn empty_key_holds_a_value() {
    let mut t = Trie::new();
    assert_eq!(t.insert("", 5), None);
    assert_eq!(t.get(""), Some(&5));
    assert!(t.contains_key(""));
    assert_eq!(t.len(), 1);
    assert_eq!(t.get("a"), None);
    assert_eq!(t.remove(""), Some(5));
    assert_eq!(t.get(""), None);
    assert_eq!(t.len(), 0);
}

#[test]
fn prefixes_and_overlaps_absent() {
    let mut t = Trie::new();
    t.insert("hello", 1);
    t.insert("hey", 2);
    assert_eq!(t.get("he"), None);
    assert_eq!(t.get("h"), None);
    assert_eq!(t.get("hell"), None);
    assert_eq!(t.get("helloo"), None);
    assert_eq!(t.get("hex"), None);
    assert!(!t.contains_key("he"));
}

#[test]
fn insert_twice_replaces() {
    let mut t = Trie::new();
    assert_eq!(t.insert("k", 1), None);
    assert_eq!(t.insert("k", 2), Some(1));
    assert_eq!(t.get("k"), Some(&2));
    assert_eq!(t.len(), 1);
}

#[test]
fn remove_absent_key() {
    let mut t = Trie::new();
    t.insert("hello", 1);
    assert_eq!(t.remove("xyz"), None);
    assert_eq!(t.len(), 1);
    assert_eq!(t.remove("he"), None);
    assert_eq!(t.len(), 1);
    assert_eq!(t.remove("helloo"), None);
    assert_eq!(t.len(), 1);
    assert_eq!(t.get("hello"), Some(&1));
}

#[test]
fn remove_present_key() {
    let mut t = Trie::new();
    t.insert("ab", 7);
    assert_eq!(t.remove("ab"), Some(7));
    assert_eq!(t.get("ab"), None);
    assert!(!t.contains_key("ab"));
    assert_eq!(t.len(), 0);
    assert!(t.is_empty());
    assert_eq!(t.remove("ab"), None);
    assert_eq!(t.len(), 0);
}

#[test]
fn remove_then_insert_again() {
    let mut t = Trie::new();
    t.insert("ab", 1);
    t.remove("ab");
    assert_eq!(t.insert("ab", 2), None);
    assert_eq!(t.get("ab"), Some(&2));
    assert_eq!(t.len(), 1);
}

#[test]
fn siblings_are_independent() {
    let mut t = Trie::new();
    t.insert("hello", 1);
    t.insert("hi", 2);
    t.insert("hey", 3);
    t.insert("world", 4);
    assert_eq!(t.len(), 4);
    assert_eq!(t.get("hello"), Some(&1));
    assert_eq!(t.get("hi"), Some(&2));
    assert_eq!(t.get("hey"), Some(&3));
    assert_eq!(t.get("world"), Some(&4));
    assert_eq!(t.get("he"), None);
    assert_eq!(t.get("hii"), None);
    assert_eq!(t.get("word"), None);
}

#[test]
fn removing_one_sibling_keeps_the_others() {
    let mut t = Trie::new();
    t.insert("hello", 1);
    t.insert("hi", 2);
    t.insert("hey", 3);
    t.insert("world", 4);
    assert_eq!(t.remove("hey"), Some(3));
    assert_eq!(t.len(), 3);
    assert_eq!(t.get("hey"), None);
    assert_eq!(t.get("hi"), Some(&2));
    assert_eq!(t.get("hello"), Some(&1));
    assert_eq!(t.get("world"), Some(&4));
}

#[test]
fn is_empty_matches_len() {
    let mut t = Trie::new();
    assert_eq!(t.is_empty(), t.len() == 0);
    t.insert("x", 1);
    assert!(!t.is_empty());
    assert_eq!(t.is_empty(), t.len() == 0);
    t.remove("x");
    assert!(t.is_empty());
    assert_eq!(t.is_empty(), t.len() == 0);
}

#[test]
fn scenario_insert_four_remove_one() {
    let mut t = Trie::new();
    t.insert("hello", 1);
    t.insert("hi", 2);
    t.insert("hey", 3);
    t.insert("world", 4);
    assert_eq!(t.len(), 4);
    assert_eq!(t.remove("hey"), Some(3));
    assert_eq!(t.len(), 3);
    assert_eq!(t.get("hi"), Some(&2));
    assert_eq!(t.get("hello"), Some(&1));
    assert_eq!(t.get("world"), Some(&4));
    assert_eq!(t.get("hey"), None);
}

#[test]
fn get_mut_changes_value_in_place() {
    let mut t = Trie::new();
    t.insert("count", 1);
    if let Some(v) = t.get_mut("count") {
        *v += 41;
    }
    assert_eq!(t.get("count"), Some(&42));
    assert_eq!(t.len(), 1);
    assert!(t.get_mut("coun").is_none());
    assert!(t.get_mut("missing").is_none());
}

#[test]
fn non_ascii_keys() {
    let mut t = Trie::new();
    t.insert("caf\u{e9}", 1);
    t.insert("cafe", 2);
    t.insert("\u{1f600}", 3);
    assert_eq!(t.get("caf\u{e9}"), Some(&1));
    assert_eq!(t.get("cafe"), Some(&2));
    assert_eq!(t.get("\u{1f600}"), Some(&3));
    assert_eq!(t.get("caf"), None);
    assert_eq!(t.len(), 3);
}

#[test]
fn many_keys_with_shared_prefixes() {
    let mut t = Trie::new();
    let keys = vec!["a", "ab", "abc", "abd", "b", "ba", ""];
    for (i, k) in keys.iter().enumerate() {
        assert_eq!(t.insert(k, i), None);
    }
    assert_eq!(t.len(), keys.len());
    for (i, k) in keys.iter().enumerate() {
        assert_eq!(t.get(k), Some(&i));
    }
    assert_eq!(t.remove("ab"), Some(1));
    assert_eq!(t.get("abc"), Some(&2));
    assert_eq!(t.get("a"), Some(&0));
    assert_eq!(t.len(), keys.len() - 1);
}
