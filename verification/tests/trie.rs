use datrie::array_trie::{Trie, TrieError};

#[test]
fn test_insert() {
    let mut trie = Trie::new();
    trie.insert("above".to_string()).unwrap();
    trie.insert("about".to_string()).unwrap();
    trie.insert("abs".to_string()).unwrap();
    println!("{:?}", trie.nodes);
    let nodes = trie.nodes;

    let word_idx: [usize; 5] = [0, 1, 14, 21, 4]; //above
    for i in 0..5usize {
        assert_eq!(nodes[i].children[word_idx[i]], Some(i + 1)); //a
    }

    let word_idx: [usize; 2] = [20, 19]; //ut
    assert_eq!(nodes[3].children[word_idx[0]], Some(6));
    assert_eq!(nodes[6].children[word_idx[1]], Some(7));

    //abs
    assert_eq!(nodes[2].children[18], Some(8));
}

#[test]
fn test_contain() {
    let mut trie = Trie::new();
    trie.insert("above".to_string()).unwrap();
    trie.insert("about".to_string()).unwrap();
    trie.insert("abs".to_string()).unwrap();
    trie.insert("char".to_string()).unwrap();
    assert_eq!(trie.contain("above".to_string()), true);
    assert_eq!(trie.contain("ab".to_string()), true);
    assert_eq!(trie.contain("aov".to_string()), false);
    assert_eq!(trie.contain("char".to_string()), true);
    assert_eq!(trie.contain("like".to_string()), false);
}

#[test]
fn test_insert_empty_word() {
    let mut trie = Trie::new();
    assert_eq!(trie.insert(String::new()), Ok(()));
    assert_eq!(trie.nodes.len(), 1);
    assert_eq!(trie.contain(String::new()), false);
}

#[test]
fn test_insert_invalid_symbol() {
    let mut trie = Trie::new();
    // uppercase letters sit below 'a' and are not symbols
    assert_eq!(trie.insert("aB".to_string()), Err(TrieError::InvalidSymbol));
    // nothing was inserted, not even the valid leading prefix
    assert_eq!(trie.nodes.len(), 1);
    assert_eq!(trie.contain("a".to_string()), false);
    assert_eq!(trie.insert("!".to_string()), Err(TrieError::InvalidSymbol));
    assert_eq!(trie.nodes.len(), 1);
}

#[test]
fn test_contain_every_prefix() {
    // every prefix of an inserted word is a path in the arena, so each one
    // is reported as contained, inserted on its own or not
    let mut trie = Trie::new();
    trie.insert("abc".to_string()).unwrap();
    trie.insert("dae".to_string()).unwrap();
    assert_eq!(trie.contain("a".to_string()), true);
    assert_eq!(trie.contain("ab".to_string()), true);
    assert_eq!(trie.contain("abc".to_string()), true);
    assert_eq!(trie.contain("d".to_string()), true);
    assert_eq!(trie.contain("da".to_string()), true);
    assert_eq!(trie.contain("dae".to_string()), true);
}

#[test]
fn test_contain_non_member() {
    // strings that leave the edge set at any point are rejected
    let mut trie = Trie::new();
    trie.insert("abc".to_string()).unwrap();
    assert_eq!(trie.contain("abcd".to_string()), false);
    assert_eq!(trie.contain("b".to_string()), false);
    assert_eq!(trie.contain("ax".to_string()), false);
    // characters outside the alphabet can never be on a path
    assert_eq!(trie.contain("aB".to_string()), false);
    assert_eq!(trie.contain("A".to_string()), false);
}
