use trie::common;
use trie::node::NodeType;
use trie::node::ValueNode;
use trie::writer::EncodeBuffer;
use trie::NodeError;
use trie::TrieNode;

#[test]
fn key_to_hex_splits_bytes_and_appends_terminator() {
    assert_eq!(common::key_to_hex(&[]), vec![16u8]);
    assert_eq!(common::key_to_hex(&[0x12]), vec![1u8, 2, 16]);
    assert_eq!(common::key_to_hex(&[0xab, 0x0f]), vec![0xau8, 0xb, 0x0, 0xf, 16]);
    assert_eq!(common::key_to_hex(&[0x00]), vec![0u8, 0, 16]);
}

#[test]
fn has_term_checks_the_last_nibble() {
    assert!(!common::has_term(&[]));
    assert!(common::has_term(&[16]));
    assert!(common::has_term(&[1, 2, 16]));
    assert!(!common::has_term(&[1, 2]));
    assert!(!common::has_term(&[16, 1]));
}

#[test]
fn hex_to_compact_leaf_even() {
    // terminator stripped into the leaf flag, two nibbles pack per byte
    assert_eq!(common::hex_to_compact(&[1, 2, 16]), vec![0x20u8, 0x12]);
}

#[test]
fn hex_to_compact_leaf_odd() {
    // the odd leading nibble folds into the flag byte
    assert_eq!(common::hex_to_compact(&[1, 2, 3, 16]), vec![0x31u8, 0x23]);
}

#[test]
fn hex_to_compact_extension_even() {
    assert_eq!(common::hex_to_compact(&[1, 2]), vec![0x00u8, 0x12]);
}

#[test]
fn hex_to_compact_extension_odd() {
    assert_eq!(common::hex_to_compact(&[5]), vec![0x15u8]);
}

#[test]
fn hex_to_compact_empty_and_bare_terminator() {
    assert_eq!(common::hex_to_compact(&[]), vec![0x00u8]);
    assert_eq!(common::hex_to_compact(&[16]), vec![0x20u8]);
}

#[test]
fn prefix_len_finds_the_shared_prefix() {
    assert_eq!(common::prefix_len(&[1, 2, 3], &[1, 2, 4]), 2);
    assert_eq!(common::prefix_len(&[1, 2], &[1, 2]), 2);
    assert_eq!(common::prefix_len(&[1, 2], &[1, 2, 3]), 2);
    assert_eq!(common::prefix_len(&[9], &[1]), 0);
    assert_eq!(common::prefix_len(&[], &[1, 2]), 0);
}

#[test]
fn encode_buffer_accumulates_and_resets() {
    let mut w = EncodeBuffer::new();
    assert_eq!(w.size(), 0);
    w.write(0x80);
    w.write_bytes(&[1, 2, 3]);
    assert_eq!(w.size(), 4);
    assert_eq!(w.encode_bytes(), vec![0x80u8, 1, 2, 3]);
    // reading leaves the buffer intact; reset clears it
    assert_eq!(w.encode_bytes(), vec![0x80u8, 1, 2, 3]);
    w.reset();
    assert_eq!(w.size(), 0);
    assert_eq!(w.encode_bytes(), Vec::<u8>::new());
}

#[test]
fn empty_root_hash_holds_the_fixed_text() {
    let h = trie::common::Hash::empty_root_hash().to_bytes();
    assert_eq!(&h[..24], b"I love rose elder sister");
    assert_eq!(&h[24..], &[0u8; 8]);
    assert_eq!(trie::common::Hash::default().to_bytes(), [0u8; 32]);
    assert_eq!(trie::common::Hash::from([7u8; 32]).to_bytes(), [7u8; 32]);
}

#[test]
fn node_coercions_report_structural_mismatch() {
    let nil = TrieNode::Nil;
    assert!(nil.to_value_node().is_err());
    assert!(nil.to_hash_node().is_err());
    let v = TrieNode::Value(ValueNode::new(b"x".to_vec()));
    assert!(v.to_value_node().is_ok());
    assert!(v.to_hash_node().is_err());
    assert_eq!(v.to_hash_node().unwrap_err().message(), "invalid node");
    assert_eq!(v.kind(), NodeType::ValueNode);
    assert_eq!(nil.kind(), NodeType::NullNode);
}

#[test]
fn node_error_carries_its_message() {
    let e = NodeError::from("unresolved node");
    assert_eq!(e.message(), "unresolved node");
}

#[test]
fn fstring_renders_a_leaf_in_hex() {
    let mut t = trie::Trie::new(trie::ID::trie_id(trie::common::Hash::default()));
    t.try_update(vec![0xab], Some(vec![0x01])).unwrap();
    // the root is a single path-compression node: its nibble path
    // 0a 0b 10 over the value byte 01
    assert_eq!(t.root.fstring(String::new()), "{0a0b10: 01 } ");
}

#[test]
fn fstring_of_an_empty_trie_is_empty() {
    let t = trie::Trie::new(trie::ID::trie_id(trie::common::Hash::default()));
    assert_eq!(t.root.fstring(String::new()), "");
}

#[test]
fn fstring_renders_a_branch_with_labels() {
    let mut t = trie::Trie::new(trie::ID::trie_id(trie::common::Hash::default()));
    t.try_update(vec![0x10], Some(b"1".to_vec())).unwrap();
    t.try_update(vec![0x20], Some(b"2".to_vec())).unwrap();
    let s = t.root.fstring(String::new());
    let mut expected = String::from("[\n  ");
    for i in 0..17 {
        let label = if i < 10 {
            i.to_string()
        } else if i < 16 {
            char::from(b'a' + (i as u8 - 10)).to_string()
        } else {
            "[17]".to_string()
        };
        expected.push_str(&label);
        expected.push_str(": ");
        match i {
            1 => expected.push_str("{0010: 31 } "),
            2 => expected.push_str("{0010: 32 } "),
            _ => expected.push_str("<nil> "),
        }
    }
    expected.push_str("\n] ");
    assert_eq!(s, expected);
}

#[test]
fn get_result_carries_its_parts() {
    let r = trie::GetResult::from(Some(b"v".to_vec()), false, trie::TrieNode::Nil);
    let _ = r;
}
