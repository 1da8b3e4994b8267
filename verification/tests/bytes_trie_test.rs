use bytes_trie::{BytesTrie, BytesTrieBuilder, BytesTrieBuilderError};

fn build(pairs: &[(&[u8], i32)], small: bool) -> Vec<u8> {
    let mut builder = BytesTrieBuilder::new();
    for (key, value) in pairs {
        builder.add(key, *value).unwrap();
    }
    if small {
        builder.build_small().unwrap()
    } else {
        builder.build_fast().unwrap()
    }
}

#[test]
fn test_builder_empty() {
    let builder = BytesTrieBuilder::new();
    let result = builder.build_fast();
    assert!(matches!(result, Err(_)));
}

#[test]
fn empty_builder_is_refused_in_both_modes() {
    assert_eq!(
        BytesTrieBuilder::new().build_fast(),
        Err(BytesTrieBuilderError::EmptyBuilder)
    );
    assert_eq!(
        BytesTrieBuilder::new().build_small(),
        Err(BytesTrieBuilderError::EmptyBuilder)
    );
}

#[test]
fn three_keys_are_found() {
    for small in [false, true] {
        let bytes = build(&[(b"a", 1), (b"ab", 2), (b"b", 3)], small);
        let trie = BytesTrie::from_bytes(bytes);
        assert_eq!(trie.get(b"ab"), Some(2));
        assert_eq!(trie.get(b"a"), Some(1));
        assert_eq!(trie.get(b"b"), Some(3));
        assert_eq!(trie.get(b"ac"), None);
        assert_eq!(trie.get(b""), None);
        assert_eq!(trie.get(b"abc"), None);
    }
}

#[test]
fn three_keys_have_these_bytes() {
    let bytes = build(&[(b"a", 1), (b"ab", 2), (b"b", 3)], false);
    // A branch of two edges: "a" jumps 2 bytes on, over "b" with its final
    // value 3, to the value 1 in front of the match of "b" with the final
    // value 2.
    assert_eq!(
        bytes,
        vec![0x01, b'a', 0x24, b'b', 0x27, 0x22, 0x10, b'b', 0x25]
    );
}

#[test]
fn empty_key_is_found() {
    for small in [false, true] {
        let bytes = build(&[(b"", 7)], small);
        let trie = BytesTrie::from_bytes(bytes);
        assert_eq!(trie.get(b""), Some(7));
        assert_eq!(trie.get(b"a"), None);
    }
}

#[test]
fn empty_key_beside_others_is_found() {
    for small in [false, true] {
        let bytes = build(&[(b"x", 1), (b"", -5), (b"xy", 3)], small);
        let trie = BytesTrie::from_bytes(bytes);
        assert_eq!(trie.get(b""), Some(-5));
        assert_eq!(trie.get(b"x"), Some(1));
        assert_eq!(trie.get(b"xy"), Some(3));
    }
}

#[test]
fn duplicate_key_is_refused() {
    let mut builder = BytesTrieBuilder::new();
    assert_eq!(builder.add(b"key", 1), Ok(()));
    assert_eq!(
        builder.add(b"key", 2),
        Err(BytesTrieBuilderError::DuplicateKey)
    );
    assert_eq!(builder.add(b"other", 3), Ok(()));
    let trie = BytesTrie::from_bytes(builder.build_fast().unwrap());
    assert_eq!(trie.get(b"key"), Some(1));
    assert_eq!(trie.get(b"other"), Some(3));
}

#[test]
fn duplicate_prefix_and_empty_keys_are_refused() {
    let mut builder = BytesTrieBuilder::new();
    assert_eq!(builder.add(b"", 1), Ok(()));
    assert_eq!(builder.add(b"", 1), Err(BytesTrieBuilderError::DuplicateKey));
    assert_eq!(builder.add(b"abc", 2), Ok(()));
    assert_eq!(builder.add(b"ab", 3), Ok(()));
    assert_eq!(builder.add(b"ab", 4), Err(BytesTrieBuilderError::DuplicateKey));
    assert_eq!(builder.add(b"abd", 5), Ok(()));
    assert_eq!(builder.add(b"abd", 5), Err(BytesTrieBuilderError::DuplicateKey));
    let trie = BytesTrie::from_bytes(builder.build_small().unwrap());
    assert_eq!(trie.get(b""), Some(1));
    assert_eq!(trie.get(b"abc"), Some(2));
    assert_eq!(trie.get(b"ab"), Some(3));
    assert_eq!(trie.get(b"abd"), Some(5));
    assert_eq!(trie.get(b"a"), None);
}

#[test]
fn key_too_long_is_refused() {
    let mut builder = BytesTrieBuilder::new();
    builder.add(b"a", 1).unwrap();
    let load = builder.load();
    let long = vec![b'x'; 0x10000];
    assert_eq!(builder.add(&long, 2), Err(BytesTrieBuilderError::KeyTooLong));
    assert_eq!(builder.load(), load);
    assert!(!builder.is_empty());
    let trie = BytesTrie::from_bytes(builder.build_fast().unwrap());
    assert_eq!(trie.get(b"a"), Some(1));
    assert_eq!(trie.get(&long), None);
}

#[test]
fn longest_key_is_accepted() {
    let mut builder = BytesTrieBuilder::new();
    let long = vec![b'x'; 0xffff];
    assert_eq!(builder.add(&long, 2), Ok(()));
    assert_eq!(builder.load(), 0x10000);
    let trie = BytesTrie::from_bytes(builder.build_fast().unwrap());
    assert_eq!(trie.get(&long), Some(2));
    assert_eq!(trie.get(&long[1..]), None);
}

#[test]
fn load_counts_bytes_and_keys() {
    let mut builder = BytesTrieBuilder::new();
    assert!(builder.is_empty());
    assert_eq!(builder.load(), 0);
    builder.add(b"abc", 1).unwrap();
    assert_eq!(builder.load(), 4);
    builder.add(b"", 1).unwrap();
    assert_eq!(builder.load(), 5);
    assert!(!builder.is_empty());
}

fn many_pairs() -> Vec<(Vec<u8>, i32)> {
    let mut pairs: Vec<(Vec<u8>, i32)> = Vec::new();
    let mut seed: u32 = 12345;
    for i in 0..600 {
        seed = seed.wrapping_mul(1664525).wrapping_add(1013904223);
        let len = (seed >> 28) as usize;
        let mut key: Vec<u8> = Vec::new();
        let mut s = seed;
        for _ in 0..len {
            s = s.wrapping_mul(22695477).wrapping_add(1);
            key.push(b'a' + ((s >> 24) % 7) as u8);
        }
        let value = match i % 5 {
            0 => i,
            1 => -i,
            2 => i * 100_000,
            3 => 7,
            _ => i32::MAX - i,
        };
        if !pairs.iter().any(|(k, _)| *k == key) {
            pairs.push((key, value));
        }
    }
    pairs
}

#[test]
fn many_keys_round_trip() {
    let pairs = many_pairs();
    for small in [false, true] {
        let mut builder = BytesTrieBuilder::new();
        for (key, value) in &pairs {
            assert_eq!(builder.add(key, *value), Ok(()));
        }
        for (key, value) in &pairs {
            assert_eq!(
                builder.add(key, *value),
                Err(BytesTrieBuilderError::DuplicateKey)
            );
        }
        let bytes = if small {
            builder.build_small().unwrap()
        } else {
            builder.build_fast().unwrap()
        };
        let trie = BytesTrie::from_bytes(bytes);
        for (key, value) in &pairs {
            assert_eq!(trie.get(key), Some(*value));
        }
        assert_eq!(trie.get(b"zzz"), None);
        assert_eq!(trie.get(b"abcdefgabcdefgabcdefg"), None);
    }
}

#[test]
fn small_build_is_not_longer() {
    let pairs = many_pairs();
    let refs: Vec<(&[u8], i32)> = pairs.iter().map(|(k, v)| (k.as_slice(), *v)).collect();
    let fast = build(&refs, false);
    let small = build(&refs, true);
    assert!(small.len() <= fast.len());
}

#[test]
fn wide_branch_is_split() {
    // 40 edges at the root: more than a list holds, and more than a lead
    // byte counts.
    let mut builder = BytesTrieBuilder::new();
    for i in 0..40u8 {
        builder.add(&[i * 3, b'k'], i as i32 * 1000).unwrap();
    }
    let trie = BytesTrie::from_bytes(builder.build_fast().unwrap());
    for i in 0..40u8 {
        assert_eq!(trie.get(&[i * 3, b'k']), Some(i as i32 * 1000));
        assert_eq!(trie.get(&[i * 3 + 1, b'k']), None);
        assert_eq!(trie.get(&[i * 3]), None);
    }
}

#[test]
fn long_match_is_cut_into_pieces() {
    let key: Vec<u8> = (0..100u8).collect();
    let bytes = build(&[(&key, 9)], false);
    // 100 bytes in pieces of 4, 16, 16, 16, 16, 16, 16, and the value.
    assert_eq!(bytes.len(), 100 + 7 + 1);
    assert_eq!(bytes[0], 0x10 + 3);
    assert_eq!(bytes[5], 0x10 + 15);
    let trie = BytesTrie::from_bytes(bytes);
    assert_eq!(trie.get(&key), Some(9));
    assert_eq!(trie.get(&key[..99]), None);
}

#[test]
fn from_bytes_and_into_bytes_keep_the_bytes() {
    let bytes = vec![0x10, b'a', 0x23];
    let trie = BytesTrie::from_bytes(bytes.clone());
    assert_eq!(trie.get(b"a"), Some(1));
    assert_eq!(trie.into_bytes(), bytes);
}

#[test]
fn broken_bytes_give_nothing() {
    assert_eq!(BytesTrie::from_bytes(vec![]).get(b"a"), None);
    assert_eq!(BytesTrie::from_bytes(vec![0x15, b'a']).get(b"a"), None);
    assert_eq!(BytesTrie::from_bytes(vec![0x03, b'a']).get(b"a"), None);
    assert_eq!(BytesTrie::from_bytes(vec![0xff, 0x01]).get(b""), None);
    assert_eq!(BytesTrie::from_bytes(vec![0x00]).get(b"a"), None);
}

#[test]
fn small_build_stores_equal_parts_once() {
    let mut pairs: Vec<(Vec<u8>, i32)> = Vec::new();
    for first in b'a'..=b'h' {
        let mut key = vec![first];
        key.extend_from_slice(b"-the-same-long-ending-for-all-keys");
        pairs.push((key, 1000));
    }
    let refs: Vec<(&[u8], i32)> = pairs.iter().map(|(k, v)| (k.as_slice(), *v)).collect();
    let fast = build(&refs, false);
    let small = build(&refs, true);
    // Eight times the ending in a fast build; in a small build once for
    // the edges that jump to it, and once more for each of the two lists
    // that end with it.
    assert!(fast.len() > 8 * 34);
    assert!(small.len() < 4 * 34 + 40);
    let trie = BytesTrie::from_bytes(small);
    for (key, value) in &pairs {
        assert_eq!(trie.get(key), Some(*value));
    }
    assert_eq!(trie.get(b"a-the-same-long-ending"), None);
}

#[test]
fn empty_key_alone_is_one_byte() {
    for small in [false, true] {
        assert_eq!(build(&[(b"", 7)], small), vec![0x2f]);
    }
}

#[test]
fn value_within_a_match_has_these_bytes_in_either_order() {
    // The match of "a", the value 1 of "a", the match of "b", the final
    // value 2.
    let expected = vec![0x10, b'a', 0x22, 0x10, b'b', 0x25];
    for small in [false, true] {
        assert_eq!(build(&[(b"ab", 2), (b"a", 1)], small), expected);
        assert_eq!(build(&[(b"a", 1), (b"ab", 2)], small), expected);
    }
}

#[test]
fn match_of_seventeen_bytes_is_cut_after_the_first() {
    let bytes = build(&[(b"abcdefghijklmnopq", 5)], false);
    let mut expected = vec![0x10, b'a', 0x1f];
    expected.extend_from_slice(b"bcdefghijklmnopq");
    expected.push(0x2b);
    assert_eq!(bytes, expected);
}

#[test]
fn too_long_key_changes_nothing() {
    let mut with_long = BytesTrieBuilder::new();
    let mut without = BytesTrieBuilder::new();
    with_long.add(b"abc", 1).unwrap();
    without.add(b"abc", 1).unwrap();
    let long = vec![b'a'; 0x10000];
    assert_eq!(
        with_long.add(&long, 2),
        Err(BytesTrieBuilderError::KeyTooLong)
    );
    with_long.add(b"abd", 3).unwrap();
    without.add(b"abd", 3).unwrap();
    assert_eq!(with_long.load(), without.load());
    assert_eq!(with_long.build_small(), without.build_small());
}
