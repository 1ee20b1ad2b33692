use const_trie::trie::{TrieMap, TrieSet};

fn words() -> Vec<Vec<u8>> {
    [
        "The Whimper of Whipped Dogs",
        "Along the Scenic Route",
        "On the Downhill Side",
        "O Ye of Little Faith",
        "Neon",
        "Basilisk",
        "Pretty Maggie Moneyeyes",
        "Corpse",
        "Shattered Like a Glass Goblin",
        "Delusion for a Dragon Slayer",
        "The Face of Helene Bournouw",
        "Bleeding Stones",
        "At the Mouse Circus",
        "The Place with No Name",
        "Paingod",
        "Ernest and the Machine God",
        "Rock God",
        "Adrift Just Off the Islets of Langerhans: Latitude 38 54 N, Longitude 77 00' 13\" W",
        "The Deathbird",
    ]
    .iter()
    .map(|s| s.as_bytes().to_vec())
    .collect()
}

fn words_sparce() -> Vec<Vec<u8>> {
    ["ababc", "babcd", "abc", "b", "cba"].iter().map(|s| s.as_bytes().to_vec()).collect()
}

#[test]
fn set_test() {
    let test_data = words();
    let trie_set = TrieSet::new(test_data.clone()).unwrap();
    assert!(trie_set.contains(&test_data[3]));
    assert!(!trie_set.contains(&b"ok".to_vec()));
}

#[test]
fn set_test_sparce() {
    let test_data = words_sparce();
    let trie_set = TrieSet::new(test_data.clone()).unwrap();
    for i in 0..test_data.len() {
        assert!(trie_set.contains(&test_data[i]));
    }
    assert!(!trie_set.contains(&b"ok".to_vec()));
    assert!(!trie_set.contains(&b"aok".to_vec()));
    assert!(!trie_set.contains(&b"ab".to_vec()));
}

#[test]
fn map_test() {
    let test_data = words();
    let pairs: Vec<(Vec<u8>, usize)> =
        test_data.iter().enumerate().map(|t| (t.1.clone(), t.0)).collect();
    let trie_map = TrieMap::new(pairs).unwrap();
    assert_eq!(trie_map.get(&test_data[3]), Some(&3));
    assert_eq!(trie_map.get(&b"O Ye of Little Fai".to_vec()), None);
}

#[test]
fn set_membership_every_pattern() {
    let test_data = words_sparce();
    let trie_set = TrieSet::new(test_data.clone()).unwrap();
    for p in &test_data {
        assert!(trie_set.contains(p));
    }
}

#[test]
fn set_negative_lookup_variants() {
    let trie_set = TrieSet::new(vec![b"abc".to_vec(), b"ab".to_vec()]).unwrap();
    assert!(trie_set.contains(&b"ab".to_vec()));
    assert!(trie_set.contains(&b"abc".to_vec()));
    assert!(!trie_set.contains(&b"a".to_vec()));
    assert!(!trie_set.contains(&b"abd".to_vec()));
    assert!(!trie_set.contains(&b"abcd".to_vec()));
    assert!(!trie_set.contains(&b"".to_vec()));
}

#[test]
fn set_rejects_invalid_byte() {
    let r = TrieSet::new(vec![b"fine".to_vec(), vec![b'a', 200u8, b'b']]);
    assert!(r.is_err());
    assert_eq!(r.err().unwrap().byte(), 200u8);
}

#[test]
fn set_reports_first_invalid_byte() {
    let r = TrieSet::new(vec![b"ok".to_vec(), vec![129u8], vec![200u8]]);
    assert_eq!(r.err().unwrap().byte(), 129u8);
}

#[test]
fn map_duplicate_key_last_wins() {
    let pairs: Vec<(Vec<u8>, u32)> =
        vec![(b"key".to_vec(), 1), (b"other".to_vec(), 7), (b"key".to_vec(), 2)];
    let trie_map = TrieMap::new(pairs).unwrap();
    assert_eq!(trie_map.get(&b"key".to_vec()), Some(&2));
    assert_eq!(trie_map.get(&b"other".to_vec()), Some(&7));
}

#[test]
fn set_rebuild_same_answers() {
    let data = words_sparce();
    let s1 = TrieSet::new(data.clone()).unwrap();
    let s2 = TrieSet::new(data.clone()).unwrap();
    let queries: Vec<Vec<u8>> =
        ["ababc", "abc", "b", "cba", "ab", "ok", "", "babcd"].iter().map(|s| s.as_bytes().to_vec()).collect();
    for q in &queries {
        assert_eq!(s1.contains(q), s2.contains(q));
    }
}
