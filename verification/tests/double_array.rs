use datrie::array_trie::Trie;
use datrie::triple_array::{BuildError, DoubleArray, Slot};
use datrie::VOCAB_SIZE;

#[test]
fn test_build() {
    let mut trie = Trie::new();
    trie.insert("ab".to_string()).unwrap();
    trie.insert("abc".to_string()).unwrap();
    trie.insert("cab".to_string()).unwrap();
    trie.insert("cba".to_string()).unwrap();
    trie.insert("dae".to_string()).unwrap();

    let mut ta = DoubleArray::new(trie);
    ta.build().unwrap();

    let next_ans: [i64; 11] = [1, 2, 4, 9, 3, 5, 7, 6, 8, 10, 11];
    assert_eq!(ta.verify_next(&next_ans), true);

    let mut trie = Trie::new();
    let mut word: [&str; 3] = ["ae", "ace", "cb"];
    word.sort();
    for w in word.iter() {
        trie.insert(w.to_string()).unwrap();
    }

    let mut ta = DoubleArray::new(trie);
    ta.build().unwrap();

    println!("{:?}", ta.offset);
    // root commits a->1 and c->5 at slots 0 and 2; node 1 then takes
    // offset -1, landing c->2 at slot 1 and e->4 at slot 3; node 2 puts
    // e->3 at slot 4 and node 5 puts b->6 at slot 5
    let next_ans: [i64; 6] = [1, 2, 5, 4, 3, 6];
    assert_eq!(ta.verify_next(&next_ans), true);
}

#[test]
fn test_build_empty_trie() {
    let trie = Trie::new();
    let mut ta = DoubleArray::new(trie);
    assert_eq!(ta.build(), Ok(()));
    let empty: [i64; 0] = [];
    assert_eq!(ta.verify_next(&empty), true);
}

#[test]
fn test_build_capacity_exhausted() {
    // one word per symbol fills the root's row across the whole array;
    // any second-level node then has nowhere to go
    let mut trie = Trie::new();
    for i in 0..VOCAB_SIZE {
        let c = char::from_u32(97 + i as u32).unwrap();
        trie.insert(c.to_string()).unwrap();
    }
    trie.insert("aa".to_string()).unwrap();
    let mut ta = DoubleArray::new(trie);
    assert_eq!(ta.build(), Err(BuildError::CapacityExhausted));
}

#[test]
fn test_compacted_walk_matches_trie() {
    // walking the compacted arrays via offset[p] + symbol, trusting a slot
    // only when check names p, retraces exactly the trie's transitions
    let mut trie = Trie::new();
    trie.insert("ab".to_string()).unwrap();
    trie.insert("abc".to_string()).unwrap();
    trie.insert("cab".to_string()).unwrap();
    trie.insert("cba".to_string()).unwrap();
    trie.insert("dae".to_string()).unwrap();
    let mut ta = DoubleArray::new(trie);
    ta.build().unwrap();

    for w in ["ab", "abc", "cab", "cba", "dae", "a", "c", "da"].iter() {
        let mut p: usize = 0;
        for ch in w.chars() {
            let sym: usize = ch as usize - 'a' as usize;
            let off: i64 = ta.offset[p].expect("parent has an offset");
            let slot: usize = (off + sym as i64) as usize;
            assert_eq!(ta.check[slot], Some(p));
            match ta.next[slot] {
                Slot::Occupied(target) => {
                    p = target;
                },
                Slot::Free(_) => panic!("committed transition lost"),
            }
        }
        assert!(p != 0);
    }
}

#[test]
fn test_unclaimed_slot_rejected() {
    // a probe for an edge the trie lacks lands on a slot whose check entry
    // names a different parent (or none), and is screened out
    let mut trie = Trie::new();
    trie.insert("ab".to_string()).unwrap();
    trie.insert("abc".to_string()).unwrap();
    trie.insert("cab".to_string()).unwrap();
    trie.insert("cba".to_string()).unwrap();
    trie.insert("dae".to_string()).unwrap();
    let mut ta = DoubleArray::new(trie);
    ta.build().unwrap();

    // node 9 is reached by "d" and has only an 'a' edge; probe 'b' from it
    let off: i64 = ta.offset[9].unwrap();
    let slot: usize = (off + 1) as usize;
    assert!(ta.check[slot] != Some(9));
}

#[test]
fn test_free_list_after_build() {
    // after the example build the first 11 slots are taken; the free list
    // must chain the rest strictly left to right out to the capacity
    let mut trie = Trie::new();
    trie.insert("ab".to_string()).unwrap();
    trie.insert("abc".to_string()).unwrap();
    trie.insert("cab".to_string()).unwrap();
    trie.insert("cba".to_string()).unwrap();
    trie.insert("dae".to_string()).unwrap();
    let mut ta = DoubleArray::new(trie);
    ta.build().unwrap();

    assert_eq!(ta.min_empty_ni, 11);
    let mut cursor: usize = ta.min_empty_ni;
    let mut visited: usize = 0;
    while cursor < VOCAB_SIZE {
        match ta.next[cursor] {
            Slot::Free(f) => {
                assert!(f > cursor);
                cursor = f;
            },
            Slot::Occupied(_) => panic!("free list passed through a committed slot"),
        }
        visited += 1;
    }
    assert_eq!(cursor, VOCAB_SIZE);
    assert_eq!(visited, VOCAB_SIZE - 11);
}

#[test]
fn test_verify_next_rejects_wrong_layout() {
    let mut trie = Trie::new();
    trie.insert("ab".to_string()).unwrap();
    let mut ta = DoubleArray::new(trie);
    ta.build().unwrap();
    // actual layout: slot 0 -> node 1, slot 1 -> node 2
    assert_eq!(ta.verify_next(&[1, 2]), true);
    assert_eq!(ta.verify_next(&[2, 1]), false);
    // a shorter expectation fails because slot 1 is not free
    assert_eq!(ta.verify_next(&[1]), false);
}
