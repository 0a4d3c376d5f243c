use huffman::{build_tree, get_frequency_map, HuffmanError, HuffmanNode, HuffmanTree};
use std::collections::VecDeque;

fn tokens(s: &str) -> VecDeque<char> {
    s.chars().collect()
}

fn encoded(tree: &HuffmanTree, text: &str) -> String {
    match tree.get_encoded(text) {
        Ok(s) => s,
        Err(_) => panic!("encoding failed"),
    }
}

fn decoded(tree: &HuffmanTree, bits: &str) -> String {
    match tree.get_decoded(bits) {
        Ok(s) => s,
        Err(_) => panic!("decoding failed"),
    }
}

#[test]
fn test_serialize() {
    let contents = "AAAAABBBBCCD";
    let huffman_tree = HuffmanTree::new(contents);
    let expected_serialized = "01A001D1C1B".chars().collect();
    assert_eq!(huffman_tree.serialize_table(), Some(expected_serialized));
}

#[test]
fn frequency_map_counts_in_order_of_first_appearance() {
    let table = get_frequency_map("abracadabra");
    let pairs: Vec<(char, usize)> = table
        .iter()
        .map(|n| match n {
            HuffmanNode::Leaf { freq, ch } => (*ch, *freq),
            HuffmanNode::Internal { .. } => panic!("internal node in a frequency table"),
        })
        .collect();
    assert_eq!(pairs, vec![('a', 5), ('b', 2), ('r', 2), ('c', 1), ('d', 1)]);
}

#[test]
fn empty_input_gives_empty_table_and_tree() {
    assert!(get_frequency_map("").is_empty());
    let tree = HuffmanTree::new("");
    assert_eq!(tree.serialize_table(), None);
    assert_eq!(encoded(&tree, ""), "");
    assert_eq!(decoded(&tree, ""), "");
}

#[test]
fn empty_tree_rejects_symbols_and_bits() {
    let tree = HuffmanTree::new("");
    assert!(matches!(tree.get_encoded("a"), Err(HuffmanError::EncodingError(_))));
    assert!(matches!(tree.get_decoded("0"), Err(HuffmanError::DecodingError(_))));
}

#[test]
fn single_symbol_has_empty_codeword() {
    let tree = HuffmanTree::new("AAAA");
    let leaves = tokens("1A");
    assert_eq!(tree.serialize_table(), Some(leaves));
    assert_eq!(encoded(&tree, "AAAA"), "");
    assert_eq!(encoded(&tree, "A"), "");
    assert!(matches!(tree.get_decoded("0"), Err(HuffmanError::DecodingError(_))));
    assert_eq!(decoded(&tree, ""), "");
}

#[test]
fn unknown_symbol_is_named_in_the_error() {
    let tree = HuffmanTree::new("AAB");
    match tree.get_encoded("C") {
        Err(HuffmanError::EncodingError(msg)) => {
            assert_eq!(msg, "There was no C found in encoding map");
        }
        _ => panic!("expected an encoding error"),
    }
    match tree.get_encoded("ABxAy") {
        Err(HuffmanError::EncodingError(msg)) => assert!(msg.contains('x')),
        _ => panic!("expected an encoding error"),
    }
}

#[test]
fn concrete_codewords() {
    let tree = HuffmanTree::new("AAAAABBBBCCD");
    assert_eq!(encoded(&tree, "A"), "0");
    assert_eq!(encoded(&tree, "B"), "11");
    assert_eq!(encoded(&tree, "C"), "101");
    assert_eq!(encoded(&tree, "D"), "100");
    assert_eq!(encoded(&tree, "AAAAABBBBCCD"), "0000011111111101101100");
}

#[test]
fn codewords_are_prefix_free() {
    let tree = HuffmanTree::new("EEEEAABBCCEEEEEEEEECD1234sadfthomasaE");
    let symbols: Vec<char> = "EABCD1234sadfthom".chars().collect();
    let codes: Vec<String> = symbols
        .iter()
        .map(|c| encoded(&tree, &c.to_string()))
        .collect();
    for i in 0..codes.len() {
        assert!(!codes[i].is_empty());
        for j in 0..codes.len() {
            if i != j {
                assert!(!codes[j].starts_with(codes[i].as_str()));
            }
        }
    }
}

#[test]
fn encode_then_decode_gives_the_text() {
    let text = "EEEEAABBCCEEEEEEEEECD1234sadfthomasaE";
    let tree = HuffmanTree::new(text);
    let bits = encoded(&tree, text);
    assert_eq!(decoded(&tree, &bits), text);
    let tree = HuffmanTree::new("AB");
    assert_eq!(encoded(&tree, "AB"), "01");
    assert_eq!(decoded(&tree, "0110"), "ABBA");
}

#[test]
fn building_twice_gives_the_same_codes() {
    let text = "the quick brown fox jumps over the lazy dog";
    let a = HuffmanTree::new(text);
    let b = HuffmanTree::new(text);
    assert_eq!(a.serialize_table(), b.serialize_table());
    assert_eq!(encoded(&a, text), encoded(&b, text));
}

#[test]
fn decoding_rejects_truncated_and_foreign_bits() {
    let tree = HuffmanTree::new("AAAAABBBBCCD");
    assert!(matches!(tree.get_decoded("10"), Err(HuffmanError::DecodingError(_))));
    assert!(matches!(tree.get_decoded("0x"), Err(HuffmanError::DecodingError(_))));
    assert_eq!(decoded(&tree, "100101110"), "DCBA");
}

#[test]
fn serialized_tree_round_trip() {
    let tree = HuffmanTree::new("AAAAABBBBCCD");
    let serialized = tree.serialize_table().unwrap();
    let rebuilt = match HuffmanTree::from_serialized(&serialized) {
        Ok(t) => t,
        Err(_) => panic!("deserialization failed"),
    };
    assert_eq!(rebuilt.serialize_table(), Some(serialized));
    let text = "ABCDDCBA";
    assert_eq!(encoded(&rebuilt, text), encoded(&tree, text));
    assert_eq!(decoded(&rebuilt, &encoded(&tree, text)), text);
}

#[test]
fn deserialization_rejects_malformed_tokens() {
    for bad in ["", "0", "01A", "1", "2A", "01A1B1C", "1A1B"] {
        assert!(
            matches!(
                HuffmanTree::from_serialized(&tokens(bad)),
                Err(HuffmanError::DecodingError(_))
            ),
            "{}",
            bad
        );
    }
    assert!(HuffmanTree::from_serialized(&tokens("01A1B")).is_ok());
}

#[test]
fn builder_on_empty_table_gives_no_root() {
    assert!(build_tree(Vec::new()).is_none());
    match build_tree(get_frequency_map("AAB")) {
        Some(HuffmanNode::Internal { freq, left, right }) => {
            assert_eq!(freq, 3);
            assert!(matches!(*left, HuffmanNode::Leaf { freq: 1, ch: 'B' }));
            assert!(matches!(*right, HuffmanNode::Leaf { freq: 2, ch: 'A' }));
        }
        _ => panic!("expected an internal root"),
    }
}
