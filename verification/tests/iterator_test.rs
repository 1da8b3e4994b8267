use bytes_trie::{BytesTrie, BytesTrieBuilder, BytesTrieIterator};

fn collect(trie: &BytesTrie, max: Option<usize>) -> Vec<(Vec<u8>, Option<i32>)> {
    let mut iter = trie.iter(max);
    let mut out = Vec::new();
    while let Some(entry) = iter.next() {
        assert_eq!(entry.key_len(), entry.key().len());
        out.push((entry.key().to_vec(), entry.value()));
    }
    assert!(iter.next().is_none());
    out
}

fn trie_of(pairs: &[(&[u8], i32)], small: bool) -> BytesTrie {
    let mut builder = BytesTrieBuilder::new();
    for (key, value) in pairs {
        builder.add(key, *value).unwrap();
    }
    let bytes = if small {
        builder.build_small().unwrap()
    } else {
        builder.build_fast().unwrap()
    };
    BytesTrie::from_bytes(bytes)
}

#[test]
fn three_keys_come_in_order() {
    for small in [false, true] {
        let trie = trie_of(&[(b"b", 3), (b"a", 1), (b"ab", 2)], small);
        assert_eq!(
            collect(&trie, None),
            vec![
                (b"a".to_vec(), Some(1)),
                (b"ab".to_vec(), Some(2)),
                (b"b".to_vec(), Some(3)),
            ]
        );
    }
}

#[test]
fn iteration_is_sorted_and_the_same_for_both_builds() {
    let mut pairs: Vec<(Vec<u8>, i32)> = Vec::new();
    let mut seed: u32 = 99;
    for i in 0..400 {
        seed = seed.wrapping_mul(1664525).wrapping_add(1013904223);
        let len = (seed >> 29) as usize;
        let mut key: Vec<u8> = Vec::new();
        let mut s = seed;
        for _ in 0..len {
            s = s.wrapping_mul(22695477).wrapping_add(1);
            key.push((s >> 24) as u8 % 12 * 20);
        }
        if !pairs.iter().any(|(k, _)| *k == key) {
            pairs.push((key, i - 200));
        }
    }
    let refs: Vec<(&[u8], i32)> = pairs.iter().map(|(k, v)| (k.as_slice(), *v)).collect();
    let fast = collect(&trie_of(&refs, false), None);
    let small = collect(&trie_of(&refs, true), None);
    assert_eq!(fast, small);
    let mut sorted: Vec<(Vec<u8>, Option<i32>)> =
        pairs.iter().map(|(k, v)| (k.clone(), Some(*v))).collect();
    sorted.sort();
    assert_eq!(fast, sorted);
    for pair in fast.windows(2) {
        assert!(pair[0].0 < pair[1].0);
    }
}

#[test]
fn keys_are_cut_at_the_greatest_length() {
    let trie = trie_of(&[(b"a", 1), (b"abcd", 2), (b"b", 3), (b"xyz", 4)], false);
    assert_eq!(
        collect(&trie, Some(2)),
        vec![
            (b"a".to_vec(), Some(1)),
            (b"ab".to_vec(), None),
            (b"b".to_vec(), Some(3)),
            (b"xy".to_vec(), None),
        ]
    );
    assert_eq!(
        collect(&trie, Some(1)),
        vec![
            (b"a".to_vec(), Some(1)),
            (b"b".to_vec(), Some(3)),
            (b"x".to_vec(), None),
        ]
    );
}

#[test]
fn new_iterates_without_a_limit() {
    let bytes = vec![0x10, b'a', 0x23];
    let mut iter = BytesTrieIterator::new(&bytes);
    let entry = iter.next().unwrap();
    assert_eq!(entry.key(), b"a");
    assert_eq!(entry.key_len(), 1);
    assert_eq!(entry.value(), Some(1));
    assert!(iter.next().is_none());
}

#[test]
fn broken_bytes_end_with_an_entry_without_value() {
    let trie = BytesTrie::from_bytes(vec![0x11, b'a']);
    assert_eq!(collect(&trie, None), vec![(Vec::new(), None)]);
    let trie = BytesTrie::from_bytes(vec![]);
    assert_eq!(collect(&trie, None), vec![(Vec::new(), None)]);
    // A branch of two edges whose first edge jumps past the end.
    let trie = BytesTrie::from_bytes(vec![0x01, b'a', 0x40, b'b', 0x27]);
    assert_eq!(
        collect(&trie, None),
        vec![(b"a".to_vec(), None), (b"b".to_vec(), Some(3))]
    );
}

#[test]
fn wide_branch_comes_in_order() {
    let mut builder = BytesTrieBuilder::new();
    for i in (0..60u8).rev() {
        builder.add(&[i * 4], i as i32).unwrap();
    }
    let trie = BytesTrie::from_bytes(builder.build_small().unwrap());
    let entries = collect(&trie, None);
    assert_eq!(entries.len(), 60);
    for (i, entry) in entries.iter().enumerate() {
        assert_eq!(entry.0, vec![i as u8 * 4]);
        assert_eq!(entry.1, Some(i as i32));
    }
}
