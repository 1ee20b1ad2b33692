use const_trie::aho_corasick::AcAutomaton;

fn words() -> Vec<Vec<u8>> {
    [
        "The Whimper of Whipped Dogs",
        "Along the Scenic Route",
        "On the Downhill Side",
        "O Ye of Little Faith",
        "Neon",
        "Basilisk",
        "Pretty Maggie Moneyeyes",
        "Corpse",
        "Shattered Like a Glass Goblin",
        "Delusion for a Dragon Slayer",
        "The Face of Helene Bournouw",
        "Bleeding Stones",
        "At the Mouse Circus",
        "The Place with No Name",
        "Paingod",
        "Ernest and the Machine God",
        "Rock God",
        "Adrift Just Off the Islets of Langerhans: Latitude 38 54 N, Longitude 77 00' 13\" W",
        "The Deathbird",
    ]
    .iter()
    .map(|s| s.as_bytes().to_vec())
    .collect()
}

#[test]
fn contains_test() {
    let test_data = words();
    let ac = AcAutomaton::construct(test_data).unwrap();
    let query = b"Neon Pretty Basilisk Maggie Moneyeyes".to_vec();
    let pats = ac.run(&query);
    assert!(pats.iter().find(|&&id| *ac.get_pat(id) == b"Neon".to_vec()).is_some());
    assert!(pats.iter().find(|&&id| *ac.get_pat(id) == b"Neno".to_vec()).is_none());
}

#[test]
fn scenario_ahishers() {
    let patterns: Vec<Vec<u8>> =
        ["he", "she", "his", "hers"].iter().map(|s| s.as_bytes().to_vec()).collect();
    let ac = AcAutomaton::construct(patterns).unwrap();
    let rows = ac.run_positions(&b"ahishers".to_vec());
    assert_eq!(rows.len(), 8);
    let ids: Vec<Vec<usize>> =
        rows.iter().map(|row| row.iter().map(|id| id.idx()).collect()).collect();
    // a h i s h e r s
    // 0 1 2 3 4 5 6 7
    assert_eq!(ids[0], Vec::<usize>::new());
    assert_eq!(ids[1], Vec::<usize>::new());
    assert_eq!(ids[2], Vec::<usize>::new());
    assert_eq!(ids[3], vec![2]); // "his" ends at position 3
    assert_eq!(ids[4], Vec::<usize>::new());
    assert_eq!(ids[5], vec![1, 0]); // "she" and "he" end at position 5
    assert_eq!(ids[6], Vec::<usize>::new());
    assert_eq!(ids[7], vec![3]); // "hers" ends at the final byte
    let flat: Vec<usize> = ac.run(&b"ahishers".to_vec()).iter().map(|id| id.idx()).collect();
    assert_eq!(flat, vec![2, 1, 0, 3]);
}

#[test]
fn suffix_patterns_both_reported() {
    let patterns: Vec<Vec<u8>> = vec![b"abc".to_vec(), b"bc".to_vec()];
    let ac = AcAutomaton::construct(patterns).unwrap();
    let rows = ac.run_positions(&b"xabc".to_vec());
    let last: Vec<usize> = rows[3].iter().map(|id| id.idx()).collect();
    assert!(last.contains(&0));
    assert!(last.contains(&1));
    assert_eq!(rows[0].len(), 0);
    assert_eq!(rows[1].len(), 0);
    assert_eq!(rows[2].len(), 0);
}

#[test]
fn no_false_positives_positions() {
    let patterns: Vec<Vec<u8>> = vec![b"aa".to_vec(), b"ba".to_vec()];
    let ac = AcAutomaton::construct(patterns).unwrap();
    let text = b"abaa".to_vec();
    let rows = ac.run_positions(&text);
    // a b a a -> "ba" ends at 2, "aa" ends at 3
    assert_eq!(rows[0].len(), 0);
    assert_eq!(rows[1].len(), 0);
    let p2: Vec<usize> = rows[2].iter().map(|id| id.idx()).collect();
    let p3: Vec<usize> = rows[3].iter().map(|id| id.idx()).collect();
    assert_eq!(p2, vec![1]);
    assert_eq!(p3, vec![0]);
}

#[test]
fn out_of_alphabet_resets_scan() {
    let patterns: Vec<Vec<u8>> = vec![b"ab".to_vec()];
    let ac = AcAutomaton::construct(patterns).unwrap();
    // 'z' is below the bound but in no pattern; 0xC8 is above the bound.
    let rows = ac.run_positions(&b"azb".to_vec());
    assert!(rows.iter().all(|row| row.is_empty()));
    let rows2 = ac.run_positions(&vec![b'a', 0xC8u8, b'b', b'a', b'b']);
    assert_eq!(rows2[0].len(), 0);
    assert_eq!(rows2[1].len(), 0);
    assert_eq!(rows2[2].len(), 0);
    assert_eq!(rows2[3].len(), 0);
    let p4: Vec<usize> = rows2[4].iter().map(|id| id.idx()).collect();
    assert_eq!(p4, vec![0]);
}

#[test]
fn overlapping_matches_reported() {
    let patterns: Vec<Vec<u8>> = vec![b"aa".to_vec()];
    let ac = AcAutomaton::construct(patterns).unwrap();
    let rows = ac.run_positions(&b"aaaa".to_vec());
    assert_eq!(rows[0].len(), 0);
    assert_eq!(rows[1].len(), 1);
    assert_eq!(rows[2].len(), 1);
    assert_eq!(rows[3].len(), 1);
}

#[test]
fn construct_rejects_invalid_byte() {
    let r = AcAutomaton::construct(vec![b"fine".to_vec(), vec![0xFFu8]]);
    assert!(r.is_err());
    assert_eq!(r.err().unwrap().byte(), 0xFFu8);
}

#[test]
fn rebuild_same_outputs() {
    let patterns: Vec<Vec<u8>> =
        ["he", "she", "his", "hers"].iter().map(|s| s.as_bytes().to_vec()).collect();
    let a1 = AcAutomaton::construct(patterns.clone()).unwrap();
    let a2 = AcAutomaton::construct(patterns).unwrap();
    let queries = [&b"ahishers"[..], b"ushers", b"", b"hehehe", b"xyz", b"sheshe"];
    for q in queries.iter() {
        let v = q.to_vec();
        let r1: Vec<usize> = a1.run(&v).iter().map(|id| id.idx()).collect();
        let r2: Vec<usize> = a2.run(&v).iter().map(|id| id.idx()).collect();
        assert_eq!(r1, r2);
        let p1: Vec<Vec<usize>> =
            a1.run_positions(&v).iter().map(|r| r.iter().map(|id| id.idx()).collect()).collect();
        let p2: Vec<Vec<usize>> =
            a2.run_positions(&v).iter().map(|r| r.iter().map(|id| id.idx()).collect()).collect();
        assert_eq!(p1, p2);
    }
}

#[test]
fn get_pat_returns_stored_bytes() {
    let patterns: Vec<Vec<u8>> =
        ["he", "she", "his", "hers"].iter().map(|s| s.as_bytes().to_vec()).collect();
    let ac = AcAutomaton::construct(patterns.clone()).unwrap();
    for (i, p) in patterns.iter().enumerate() {
        let id = ac.run(p).into_iter().find(|id| *ac.get_pat(*id) == *p).unwrap();
        assert_eq!(id.idx(), i);
    }
}
