use huffman::book::{codebook, Codebook};
use huffman::builder::huffman;
use huffman::codec::{bitvec_str, book_get, decode, encode, DecodeError};
use huffman::freq::frequency;
use huffman::tree::HuffTree;

fn check_weights(t: &HuffTree) -> u32 {
    match t {
        HuffTree::Leaf { occ, .. } => *occ,
        HuffTree::Node { left, right } => {
            let lw = check_weights(left);
            let rw = check_weights(right);
            assert_eq!(t.lettercount(), lw + rw);
            lw + rw
        }
    }
}

fn build_tree(message: &str) -> Option<HuffTree> {
    let chars: Vec<char> = message.chars().collect();
    huffman(frequency(&chars))
}

#[test]
fn round_trip_example() {
    let message = "BACADAEAFABBAAAGAH";
    let (cb, bits) = encode(message).unwrap();
    let decoded = decode(&cb, &bits).unwrap();
    assert_eq!(decoded, message);
}

#[test]
fn round_trip_second_example() {
    let message = "aardvarks ate apples around aachen";
    let (cb, bits) = encode(message).unwrap();
    let decoded = decode(&cb, &bits).unwrap();
    assert_eq!(decoded, message);
}

#[test]
fn encode_empty_message_is_none() {
    assert!(encode("").is_none());
}

#[test]
fn encoded_bits_are_concatenated_codes() {
    let message = "BACADAEAFABBAAAGAH";
    let (cb, bits) = encode(message).unwrap();
    let mut expected: Vec<bool> = Vec::new();
    for c in message.chars() {
        let code = book_get(&cb, c).expect("symbol of the message has a code");
        expected.extend_from_slice(code);
    }
    assert_eq!(bits, expected);
}

#[test]
fn codebook_is_prefix_free() {
    let message = "BACADAEAFABBAAAGAH";
    let (cb, _) = encode(message).unwrap();
    for i in 0..cb.len() {
        for j in 0..cb.len() {
            if i != j {
                assert!(!cb[j].1.starts_with(&cb[i].1));
            }
        }
    }
}

#[test]
fn weight_conservation() {
    let tree = build_tree("Hello World").unwrap();
    assert_eq!(tree.lettercount(), 11);
    assert_eq!(check_weights(&tree), 11);
    assert!(matches!(tree, HuffTree::Node { .. }));
}

#[test]
fn single_symbol_message() {
    let message = "AAAA";
    let tree = build_tree(message).unwrap();
    match tree {
        HuffTree::Leaf { chr, occ } => {
            assert_eq!(chr, 'A');
            assert_eq!(occ, 4);
        }
        HuffTree::Node { .. } => panic!("single-symbol message must give a single leaf"),
    }
    let (cb, bits) = encode(message).unwrap();
    assert_eq!(cb.len(), 1);
    assert_eq!(cb[0].0, 'A');
    assert_eq!(cb[0].1, vec![false]);
    assert_eq!(bits, vec![false, false, false, false]);
    assert_eq!(decode(&cb, &bits).unwrap(), "AAAA");
}

#[test]
fn decode_failure_on_stray_bit() {
    let (cb, _) = encode("AAAA").unwrap();
    let stray = vec![true];
    assert_eq!(decode(&cb, &stray), Err(DecodeError::CodebookMismatch));
}

#[test]
fn decode_failure_on_truncated_code() {
    // "AABC" gives A the code 0 and B and C two-bit codes starting with 1,
    // so a lone 1 bit matches no code.
    let (cb, _) = encode("AABC").unwrap();
    let stray = vec![true];
    assert_eq!(decode(&cb, &stray), Err(DecodeError::CodebookMismatch));
}

#[test]
fn decode_empty_bits_is_empty_message() {
    let (cb, _) = encode("AABC").unwrap();
    let bits: Vec<bool> = Vec::new();
    assert_eq!(decode(&cb, &bits).unwrap(), "");
}

#[test]
fn codebook_of_handmade_tree() {
    let tree = HuffTree::new('a', 1).merge(HuffTree::new('b', 2));
    let cb: Codebook = codebook(&tree);
    assert_eq!(cb.len(), 2);
    assert_eq!(cb[0].0, 'a');
    assert_eq!(cb[0].1, vec![false]);
    assert_eq!(cb[1].0, 'b');
    assert_eq!(cb[1].1, vec![true]);
}

#[test]
fn tree_chars_and_lettercount() {
    let tree = HuffTree::new('a', 1).merge(HuffTree::new('b', 2));
    assert_eq!(tree.chars(), "ab");
    assert_eq!(tree.lettercount(), 3);
}

#[test]
fn huffman_of_empty_table_is_none() {
    let table: Vec<(char, u32)> = Vec::new();
    assert!(huffman(table).is_none());
}

#[test]
fn bitvec_str_renders_bits() {
    assert_eq!(bitvec_str(&vec![true, false, true, true]), "1011");
    assert_eq!(bitvec_str(&Vec::new()), "");
}
