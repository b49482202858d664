use crypto::digest::Digest;
use crypto::sha2::Sha256;
use trie::ID;
use trie::Trie;

fn new_trie() -> Trie {
    Trie::new(ID::trie_id(trie::common::Hash::default()))
}

fn sha256_of_index(i: u64) -> (Vec<u8>, Vec<u8>) {
    let mut s256 = Sha256::new();
    let vs = i.to_le_bytes();
    s256.input(&vs);
    let mut key = vec![0u8; 32];
    s256.result(&mut key);
    (key, vs.to_vec())
}

#[test]
fn insert_then_get_returns_value() {
    let mut t = new_trie();
    t.try_update(b"abc".to_vec(), Some(b"hello".to_vec())).unwrap();
    let got = t.try_get(&t.root, b"abc").unwrap();
    assert_eq!(got, Some(b"hello".to_vec()));
}

#[test]
fn overwrite_replaces_value() {
    let mut t = new_trie();
    t.try_update(b"abc".to_vec(), Some(b"one".to_vec())).unwrap();
    t.try_update(b"abc".to_vec(), Some(b"two".to_vec())).unwrap();
    assert_eq!(t.try_get(&t.root, b"abc").unwrap(), Some(b"two".to_vec()));
}

#[test]
fn delete_removes_only_that_key() {
    let mut t = new_trie();
    t.try_update(b"abc".to_vec(), Some(b"one".to_vec())).unwrap();
    t.try_update(b"abd".to_vec(), Some(b"two".to_vec())).unwrap();
    t.try_update(b"abc".to_vec(), None).unwrap();
    assert_eq!(t.try_get(&t.root, b"abc").unwrap(), None);
    assert_eq!(t.try_get(&t.root, b"abd").unwrap(), Some(b"two".to_vec()));
}

#[test]
fn get_missing_key_is_none() {
    let mut t = new_trie();
    t.try_update(b"abc".to_vec(), Some(b"one".to_vec())).unwrap();
    assert_eq!(t.try_get(&t.root, b"abx").unwrap(), None);
    assert_eq!(t.try_get(&t.root, b"ab").unwrap(), None);
    assert_eq!(t.try_get(&t.root, b"abcd").unwrap(), None);
}

#[test]
fn delete_missing_key_changes_nothing() {
    let mut t = new_trie();
    t.try_update(b"abc".to_vec(), Some(b"one".to_vec())).unwrap();
    let before = t.hash().to_bytes();
    t.try_update(b"zzz".to_vec(), None).unwrap();
    assert_eq!(t.hash().to_bytes(), before);
    assert_eq!(t.try_get(&t.root, b"abc").unwrap(), Some(b"one".to_vec()));
}

#[test]
fn empty_trie_hash_is_the_fixed_constant() {
    let mut t = new_trie();
    let h = t.hash().to_bytes();
    assert_eq!(h, trie::common::Hash::empty_root_hash().to_bytes());
    let mut expected = [0u8; 32];
    expected[..24].copy_from_slice(b"I love rose elder sister");
    assert_eq!(h, expected);
}

#[test]
fn empty_trie_hash_is_not_the_hash_of_zero_bytes() {
    // the empty-root digest is a domain-separated constant, not the
    // digest of an empty input
    let mut t = new_trie();
    let h = t.hash().to_bytes();
    let mut keccak = crypto::sha3::Sha3::keccak256();
    keccak.input(&[]);
    let mut empty_digest = [0u8; 32];
    keccak.result(&mut empty_digest);
    assert_ne!(h, empty_digest);
}

#[test]
fn idempotent_update_keeps_digest() {
    let mut t = new_trie();
    t.try_update(b"k1".to_vec(), Some(b"v1".to_vec())).unwrap();
    t.try_update(b"k2".to_vec(), Some(b"v2".to_vec())).unwrap();
    let before = t.hash().to_bytes();
    t.try_update(b"k1".to_vec(), Some(b"v1".to_vec())).unwrap();
    assert_eq!(t.hash().to_bytes(), before);
}

#[test]
fn digest_is_order_independent() {
    let mut a = new_trie();
    let mut b = new_trie();
    let entries: Vec<(&[u8], &[u8])> = vec![
        (b"doe", b"reindeer"),
        (b"dog", b"puppy"),
        (b"dogglesworth", b"cat"),
        (b"horse", b"stallion"),
        (b"do", b"verb"),
    ];
    for (k, v) in entries.iter() {
        a.try_update(k.to_vec(), Some(v.to_vec())).unwrap();
    }
    for (k, v) in entries.iter().rev() {
        b.try_update(k.to_vec(), Some(v.to_vec())).unwrap();
    }
    assert_eq!(a.hash().to_bytes(), b.hash().to_bytes());
}

#[test]
fn digest_agrees_after_deletes_with_plain_build() {
    // building a set directly and reaching the same set through extra
    // inserts plus deletes give the same digest
    let mut a = new_trie();
    a.try_update(b"alpha".to_vec(), Some(b"1".to_vec())).unwrap();
    a.try_update(b"beta".to_vec(), Some(b"2".to_vec())).unwrap();

    let mut b = new_trie();
    b.try_update(b"gamma".to_vec(), Some(b"3".to_vec())).unwrap();
    b.try_update(b"alpha".to_vec(), Some(b"0".to_vec())).unwrap();
    b.try_update(b"beta".to_vec(), Some(b"2".to_vec())).unwrap();
    b.try_update(b"alpha".to_vec(), Some(b"1".to_vec())).unwrap();
    b.try_update(b"gamma".to_vec(), None).unwrap();

    assert_eq!(a.hash().to_bytes(), b.hash().to_bytes());
}

#[test]
fn deleting_everything_restores_the_empty_digest() {
    let mut t = new_trie();
    let empty = t.hash().to_bytes();
    t.try_update(b"one".to_vec(), Some(b"1".to_vec())).unwrap();
    t.try_update(b"two".to_vec(), Some(b"2".to_vec())).unwrap();
    t.try_update(b"one".to_vec(), None).unwrap();
    t.try_update(b"two".to_vec(), None).unwrap();
    assert_eq!(t.hash().to_bytes(), empty);
}

#[test]
fn hash_is_stable_across_repeated_calls() {
    let mut t = new_trie();
    for i in 0..64u64 {
        let (k, v) = sha256_of_index(i);
        t.try_update(k, Some(v)).unwrap();
    }
    let h1 = t.hash().to_bytes();
    // the second call reuses memoized subtree digests
    let h2 = t.hash().to_bytes();
    assert_eq!(h1, h2);
    // values are still all readable through the cached root
    for i in 0..64u64 {
        let (k, v) = sha256_of_index(i);
        assert_eq!(t.try_get(&t.root, &k).unwrap(), Some(v));
    }
}

#[test]
fn mutation_after_hash_changes_digest() {
    let mut t = new_trie();
    for i in 0..64u64 {
        let (k, v) = sha256_of_index(i);
        t.try_update(k, Some(v)).unwrap();
    }
    let h1 = t.hash().to_bytes();
    let (k, _) = sha256_of_index(0);
    t.try_update(k, Some(b"other".to_vec())).unwrap();
    let h2 = t.hash().to_bytes();
    assert_ne!(h1, h2);
}

#[test]
fn empty_byte_key_round_trips() {
    // Scenario: only the empty key, bound to [1]
    let mut t = new_trie();
    t.try_update(Vec::new(), Some(vec![1u8])).unwrap();
    assert_eq!(t.try_get(&t.root, &[]).unwrap(), Some(vec![1u8]));
    let h = t.hash().to_bytes();
    let mut empty = new_trie();
    assert_ne!(h, empty.hash().to_bytes());
}

#[test]
fn empty_value_is_a_real_binding() {
    let mut t = new_trie();
    t.try_update(b"k".to_vec(), Some(Vec::new())).unwrap();
    assert_eq!(t.try_get(&t.root, b"k").unwrap(), Some(Vec::new()));
}

#[test]
fn dense_digest_keys_retrievable() {
    // Scenario: every key is the digest of its index, the value its
    // little-endian index bytes
    let mut t = new_trie();
    for i in 0..=130000u64 {
        let (key, val) = sha256_of_index(i);
        t.try_update(key.clone(), Some(val.clone())).unwrap();
        let got = t.try_get(&t.root, &key).unwrap();
        assert_eq!(got, Some(val));
    }
}

#[test]
fn dense_digest_keys_survive_deleting_the_even_half() {
    // Scenario: from the dense set, remove every even index
    let mut t = new_trie();
    for i in 0..=130000u64 {
        let (key, val) = sha256_of_index(i);
        t.try_update(key, Some(val)).unwrap();
    }
    for i in 0..=130000u64 {
        let (key, val) = sha256_of_index(i);
        if i & 1 == 0 {
            t.try_update(key.clone(), None).unwrap();
        }
        let got = t.try_get(&t.root, &key).unwrap();
        if i & 1 == 0 {
            assert_eq!(got, None);
        } else {
            assert_eq!(got, Some(val));
        }
    }
}

fn keccak256_of(data: &[u8]) -> [u8; 32] {
    let mut h = crypto::sha3::Sha3::keccak256();
    h.input(data);
    let mut out = [0u8; 32];
    h.result(&mut out);
    out
}

#[test]
fn root_digest_matches_hand_computed_leaf_encoding() {
    // a single binding collapses to one path-compression node whose
    // canonical encoding is its compact key followed by the value
    let mut t = new_trie();
    t.try_update(vec![0xab], Some(vec![0x01])).unwrap();
    // nibble path 0a 0b 10 packs to 20 ab under the leaf flag
    let expected = keccak256_of(&[0x20, 0xab, 0x01]);
    assert_eq!(t.hash().to_bytes(), expected);
}

#[test]
fn root_digest_matches_hand_computed_branch_encoding() {
    // two keys diverging at the first nibble collapse to a branch whose
    // encoding lists all 17 slots, absent ones as the marker byte
    let mut t = new_trie();
    t.try_update(vec![0x10], Some(b"1".to_vec())).unwrap();
    t.try_update(vec![0x20], Some(b"2".to_vec())).unwrap();
    let mut enc: Vec<u8> = Vec::new();
    enc.push(0x80); // slot 0
    enc.extend_from_slice(&[0x30, 0x31]); // slot 1: leaf over the odd nibble 0, value "1"
    enc.extend_from_slice(&[0x30, 0x32]); // slot 2: leaf over the odd nibble 0, value "2"
    for _ in 3..17 {
        enc.push(0x80);
    }
    let expected = keccak256_of(&enc);
    assert_eq!(t.hash().to_bytes(), expected);
}

fn root_memo(t: &Trie) -> Option<([u8; 32], bool)> {
    match &t.root {
        trie::TrieNode::Short(s) => s.flags.hash.as_ref().map(|h| (h.0, s.flags.dirty)),
        trie::TrieNode::Full(f) => f.flags.hash.as_ref().map(|h| (h.0, f.flags.dirty)),
        _ => None,
    }
}

#[test]
fn retained_root_memoizes_the_returned_digest() {
    // a small root (encoding under the threshold) is hashed only because
    // the root is forced; the retained copy still carries that digest,
    // marked dirty so it never stands in for the inline encoding
    let mut t = new_trie();
    t.try_update(vec![0xab], Some(vec![0x01])).unwrap();
    let h = t.hash().to_bytes();
    assert_eq!(root_memo(&t), Some((h, true)));
    // a second hash recomputes from a forced call and agrees
    assert_eq!(t.hash().to_bytes(), h);
    // a large root crosses the threshold: its memo is clean
    let mut big = new_trie();
    for i in 0..64u64 {
        let (k, v) = sha256_of_index(i);
        big.try_update(k, Some(v)).unwrap();
    }
    let hb = big.hash().to_bytes();
    assert_eq!(root_memo(&big), Some((hb, false)));
}

#[test]
fn mutation_drops_the_root_memo() {
    let mut t = new_trie();
    t.try_update(b"one".to_vec(), Some(b"1".to_vec())).unwrap();
    t.hash();
    assert!(root_memo(&t).is_some());
    t.try_update(b"two".to_vec(), Some(b"2".to_vec())).unwrap();
    assert_eq!(root_memo(&t), None);
}

#[test]
fn empty_root_carries_no_memo() {
    let mut t = new_trie();
    t.hash();
    assert_eq!(root_memo(&t), None);
}
