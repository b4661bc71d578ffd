use succinct_trie::config::{K_NOT_FOUND, TrieError};
use succinct_trie::trie::{CompactArray, TrajectoryHash, Trie};

fn sample_keys() -> Vec<Vec<u8>> {
    vec![
        vec![0, 0, 0, 0, 1, 0],
        vec![48, 49, 50, 50, 1, 3],
        vec![49, 49, 229, 0, 1, 0],
        vec![50, 50, 54, 55, 56, 57],
    ]
}

#[test]
fn contains_check() {
    let keys = sample_keys();
    let trie = Trie::new(&keys).unwrap();
    for key in keys.iter() {
        let key_id = trie.exact_search(key.as_slice());
        println!("key_id: {}", key_id);
        assert_ne!(key_id, K_NOT_FOUND);
    }

    let not_exist_item_a = vec![50, 50, 54, 55, 56, 0];
    let not_exist_item_b = vec![0, 0, 0, 0, 0, 0];
    let not_exist_item_c = vec![0, 0, 0, 0, 1, 100];
    let not_exist_item_d = vec![50, 50, 0, 55, 56, 57];
    let not_exist_keys: Vec<&[u8]> = vec![
        not_exist_item_a.as_slice(),
        not_exist_item_b.as_slice(),
        not_exist_item_c.as_slice(),
        not_exist_item_d.as_slice(),
    ];
    for key in not_exist_keys.iter() {
        let key_id = trie.exact_search(key);
        println!("key_id: {}", K_NOT_FOUND);
        assert_eq!(key_id, K_NOT_FOUND);
    }
}

#[test]
fn serialize() {
    let keys = sample_keys();
    let trie = Trie::new(&keys).unwrap();
    for key in keys.iter() {
        let key_id = trie.exact_search(key.as_slice());
        println!("key_id: {}", key_id);
        assert_ne!(key_id, K_NOT_FOUND);
    }

    let bytes = trie.serialize();
    println!("length : {}", bytes.len());
    let new_trie = Trie::deserialize(bytes.as_slice()).unwrap();
    for key in keys.iter() {
        let key_id = new_trie.exact_search(key.as_slice());
        println!("key_id: {}", key_id);
        assert_ne!(key_id, K_NOT_FOUND);
    }

    let key_id = new_trie.exact_search(vec![0, 0, 0, 0, 1, 0].as_slice());
    assert_ne!(key_id, K_NOT_FOUND);
    let key_id = new_trie.exact_search(vec![0, 0, 0, 0, 0, 0].as_slice());
    assert_eq!(key_id, K_NOT_FOUND);
    let key_id = new_trie.exact_search(vec![1, 0, 0, 0, 0, 0].as_slice());
    assert_eq!(key_id, K_NOT_FOUND);
    let key_id = new_trie.exact_search(vec![0, 0, 0, 0, 0, 1].as_slice());
    assert_eq!(key_id, K_NOT_FOUND);
    let key_id = new_trie.exact_search(vec![10, 10, 10, 10, 1, 100].as_slice());
    assert_eq!(key_id, K_NOT_FOUND);
}

#[test]
fn serialize_is_byte_identical_after_round_trip() {
    let keys = sample_keys();
    let trie = Trie::new(&keys).unwrap();
    let bytes = trie.serialize();
    let restored = Trie::deserialize(bytes.as_slice()).unwrap();
    let bytes_again = restored.serialize();
    assert_eq!(bytes, bytes_again);
}

fn expect_error(r: Result<Trie, TrieError>) -> TrieError {
    match r {
        Ok(_) => panic!("expected an error"),
        Err(e) => e,
    }
}

#[test]
fn deserialize_rejects_corrupted_data() {
    assert_eq!(expect_error(Trie::deserialize(&[])), TrieError::CorruptedIndex);
    assert_eq!(
        expect_error(Trie::deserialize(&[1, 2, 3, 4, 5, 6, 7, 8, 9])),
        TrieError::CorruptedIndex
    );
    let keys = sample_keys();
    let trie = Trie::new(&keys).unwrap();
    let bytes = trie.serialize();
    // a truncated blob can never spell a well-formed index
    let truncated = &bytes[..bytes.len() - 1];
    assert_eq!(expect_error(Trie::deserialize(truncated)), TrieError::CorruptedIndex);
    // trailing garbage is rejected as well
    let mut extended = bytes.clone();
    extended.push(0);
    assert_eq!(
        expect_error(Trie::deserialize(extended.as_slice())),
        TrieError::CorruptedIndex
    );
}

#[test]
fn new_rejects_unsorted_keys() {
    let keys = vec![vec![2u8, 0], vec![1u8, 0]];
    assert_eq!(expect_error(Trie::new(&keys)), TrieError::UnsortedInput);
}

#[test]
fn new_rejects_empty_key() {
    let keys: Vec<Vec<u8>> = vec![vec![]];
    assert_eq!(expect_error(Trie::new(&keys)), TrieError::BuildFailure);
}

#[test]
fn adjacent_duplicate_keys_collapse() {
    let keys = vec![
        vec![1u8, 2, 3],
        vec![1u8, 2, 3],
        vec![2u8, 2, 3],
    ];
    let trie = Trie::new(&keys).unwrap();
    assert!(trie.contains(&[1, 2, 3]));
    assert!(trie.contains(&[2, 2, 3]));
    assert!(!trie.contains(&[1, 2, 4]));
}

#[test]
fn membership_holds_for_every_key_of_a_larger_set() {
    // a spread of four-byte keys, sorted ascending
    let mut keys: Vec<Vec<u8>> = Vec::new();
    for a in 0..10u8 {
        for b in 0..10u8 {
            keys.push(vec![a * 7, b * 11, a, b]);
        }
    }
    keys.sort();
    keys.dedup();
    let trie = Trie::new(&keys).unwrap();
    for key in keys.iter() {
        assert!(trie.contains(key.as_slice()), "key missing: {:?}", key);
    }
}

#[test]
fn no_false_positives_for_perturbed_keys() {
    let mut keys: Vec<Vec<u8>> = Vec::new();
    for a in 0..10u8 {
        for b in 0..10u8 {
            keys.push(vec![a * 7, b * 11, a, b]);
        }
    }
    keys.sort();
    keys.dedup();
    let trie = Trie::new(&keys).unwrap();
    for key in keys.iter() {
        // flip one byte
        for pos in 0..key.len() {
            let mut flipped = key.clone();
            flipped[pos] ^= 0x80;
            if keys.binary_search(&flipped).is_err() {
                assert!(!trie.contains(flipped.as_slice()), "false positive: {:?}", flipped);
            }
        }
        // truncate
        let truncated = key[..key.len() - 1].to_vec();
        if keys.binary_search(&truncated).is_err() {
            assert!(!trie.contains(truncated.as_slice()), "false positive: {:?}", truncated);
        }
        // extend
        let mut extended = key.clone();
        extended.push(1);
        if keys.binary_search(&extended).is_err() {
            assert!(!trie.contains(extended.as_slice()), "false positive: {:?}", extended);
        }
    }
}

#[test]
fn every_resolved_suffix_matches_its_key_tail() {
    // keys that share tails, so the suffix store reuses storage; each key
    // must still resolve to its own exact tail
    let mut keys = vec![
        vec![1u8, 9, 9, 9],
        vec![2u8, 9, 9, 9],
        vec![3u8, 8, 8, 8],
        vec![3u8, 9, 9, 9],
    ];
    keys.sort();
    let trie = Trie::new(&keys).unwrap();
    let mut ids = Vec::new();
    for key in keys.iter() {
        let id = trie.exact_search(key.as_slice());
        assert_ne!(id, K_NOT_FOUND);
        ids.push(id);
    }
    ids.sort();
    ids.dedup();
    assert_eq!(ids.len(), keys.len(), "key ids must be distinct");
}

#[test]
fn non_adjacent_identical_tails_resolve_exactly() {
    // the first and third key leave the same tail behind their diverging
    // first byte; the store shares one copy yet each key must resolve to
    // its own exact tail
    let keys = vec![
        vec![1u8, 9, 9, 9],
        vec![2u8, 8, 8, 8],
        vec![3u8, 9, 9, 9],
    ];
    let trie = Trie::new(&keys).unwrap();
    for key in keys.iter() {
        assert!(trie.contains(key.as_slice()));
    }
    assert!(!trie.contains(&[1, 8, 8, 8]));
    assert!(!trie.contains(&[2, 9, 9, 9]));
    assert!(!trie.contains(&[3, 9, 9]));
    let mut ids: Vec<usize> = keys.iter().map(|k| trie.exact_search(k.as_slice())).collect();
    ids.sort();
    ids.dedup();
    assert_eq!(ids.len(), keys.len(), "key ids must be distinct");
}

#[test]
fn doe_search_finds_consecutive_runs() {
    let keys = sample_keys();
    let trie = Trie::new(&keys).unwrap();
    let queries = vec![
        vec![0u8, 0, 0, 0, 1, 0],
        vec![48u8, 49, 50, 50, 1, 3],
        vec![9u8, 9, 9, 9, 9, 9],
        vec![49u8, 49, 229, 0, 1, 0],
    ];
    assert!(trie.doe_search(1, &queries));
    assert!(trie.doe_search(2, &queries));
    assert!(!trie.doe_search(3, &queries));
}

#[test]
fn neighbor_search_hits_the_center_and_only_it() {
    let th = TrajectoryHash::new(8, 10, 10);
    let center: Vec<u8> = vec![0, 0, 0, 0, 1, 35, 69, 103];
    let neighbors = th.get_neighbors(center.as_slice());
    assert_eq!(neighbors.len(), 27);
    // the middle grid cell is the unmoved point itself
    assert_eq!(neighbors[13], center);
    let keys = vec![center.clone()];
    let trie = Trie::new(&keys).unwrap();
    assert!(trie.accurate_search(center.as_slice(), &th));
    let mut hits = 0;
    for nei in neighbors.iter() {
        if trie.contains(nei.as_slice()) {
            hits += 1;
        }
    }
    assert_eq!(hits, 1, "only the center may be held by the trie");
    // every immediate neighbor reaches the center with one grid move, so
    // the approximate query answers positively from each of them
    for nei in neighbors.iter() {
        assert!(trie.accurate_search(nei.as_slice(), &th));
    }
}

#[test]
fn accurate_doe_search_counts_neighbor_runs() {
    let th = TrajectoryHash::new(8, 10, 10);
    let center: Vec<u8> = vec![0, 0, 0, 0, 1, 35, 69, 103];
    let keys = vec![center.clone()];
    let trie = Trie::new(&keys).unwrap();
    let queries = vec![center.clone(), center.clone()];
    assert!(trie.accurate_doe_search(2, &queries, &th));
    assert!(!trie.accurate_doe_search(3, &queries, &th));
}

#[test]
fn compact_array_round_trips_values() {
    let input: Vec<u32> = vec![0, 1, 2, 3, 5, 8, 13, 21, 34, 55, 89];
    let ca = CompactArray::new(&input, 7).unwrap();
    for (i, v) in input.iter().enumerate() {
        assert_eq!(ca.get(i as u32), *v);
    }
    let bytes = ca.serialize();
    let restored = CompactArray::deserialize(bytes.as_slice()).unwrap();
    for (i, v) in input.iter().enumerate() {
        assert_eq!(restored.get(i as u32), *v);
    }
}

#[test]
fn byte_size_accounts_for_every_array() {
    let keys = sample_keys();
    let trie = Trie::new(&keys).unwrap();
    assert!(trie.byte_size() > 0);
    assert!(trie.byte_size() < trie.serialize().len() * 2);
}

#[test]
fn empty_key_set_builds_an_empty_index() {
    let keys: Vec<Vec<u8>> = vec![];
    let trie = Trie::new(&keys).unwrap();
    assert!(!trie.contains(&[0]));
    assert!(!trie.contains(&[1, 2, 3]));
    let restored = Trie::deserialize(trie.serialize().as_slice()).unwrap();
    assert!(!restored.contains(&[7, 7]));
}

#[test]
fn ids_cover_the_distinct_key_count_exactly() {
    let keys = sample_keys();
    let trie = Trie::new(&keys).unwrap();
    let mut ids: Vec<usize> = keys.iter().map(|k| trie.exact_search(k.as_slice())).collect();
    ids.sort();
    assert_eq!(ids, vec![0, 1, 2, 3]);
}
