use quantum_pack::adaptive_dictionary::AdaptiveDictionary;
use quantum_pack::huffman::{
    build_huffman_tree, build_huffman_tree_with_dictionary, generate_huffman_codes,
    huffman_decode, huffman_encode, HuffmanNode,
};

fn create_test_tree() -> Option<Box<HuffmanNode>> {
    let data = b"example data for adaptive dictionary";
    build_huffman_tree(data)
}

#[test]
fn test_build_huffman_tree_non_empty_data() {
    let tree = create_test_tree();
    assert!(tree.is_some());
}

#[test]
fn test_build_huffman_tree_empty_data() {
    let tree = build_huffman_tree(b"");
    assert!(tree.is_none());
}

#[test]
fn test_build_huffman_tree_single_character() {
    let tree = build_huffman_tree(b"aaaaaa");
    assert!(tree.is_some());
    assert_eq!(tree.unwrap().frequency, 6);
}

#[test]
fn test_generate_huffman_codes() {
    let tree = create_test_tree().unwrap();
    let mut codes: Vec<Option<Vec<u8>>> = vec![None; 256];
    generate_huffman_codes(&tree, &mut vec![], &mut codes);

    assert!(codes.iter().any(|c| c.is_some()));
    assert!(codes[b'e' as usize].is_some());
}

#[test]
fn test_build_huffman_tree_with_dictionary() {
    let mut dictionary = AdaptiveDictionary::new();
    dictionary.update(b"example data for adaptive dictionary");
    let tree = build_huffman_tree_with_dictionary(&dictionary);

    assert!(tree.is_some());
}

#[test]
fn test_huffman_decode_basic() {
    let tree = create_test_tree().unwrap();
    println!("{:?}", tree.frequency);
    let data = b"example";
    let mut codes: Vec<Option<Vec<u8>>> = vec![None; 256];
    generate_huffman_codes(&tree, &mut vec![], &mut codes);
    let encoded_data = huffman_encode(data, &codes);
    println!("{:?}", encoded_data);
    let decoded_data = huffman_decode(&encoded_data, &tree).unwrap();

    assert_eq!(decoded_data, data);
}

#[test]
fn test_huffman_encode_basic() {
    let tree = create_test_tree().unwrap();
    let data = b"example";
    let mut codes: Vec<Option<Vec<u8>>> = vec![None; 256];
    generate_huffman_codes(&tree, &mut vec![], &mut codes);

    let encoded_data = huffman_encode(data, &codes);
    assert!(!encoded_data.is_empty());
}

#[test]
fn test_single_symbol_round_trip() {
    // One distinct byte: the tree is a single leaf carrying the total count,
    // its code is empty, and the payload is just the trailer byte.
    let data = b"aaaaaa";
    let tree = build_huffman_tree(data).unwrap();
    assert_eq!(tree.frequency, 6);
    assert_eq!(tree.value, b'a');
    assert!(tree.left.is_none() && tree.right.is_none());
    let mut codes: Vec<Option<Vec<u8>>> = vec![None; 256];
    generate_huffman_codes(&tree, &mut vec![], &mut codes);
    assert_eq!(codes[b'a' as usize], Some(vec![]));
    let encoded = huffman_encode(data, &codes);
    assert_eq!(encoded, vec![0]);
    let decoded = huffman_decode(&encoded, &tree).unwrap();
    assert_eq!(decoded, data);
}

#[test]
fn test_huffman_decode_leaf_payloads() {
    let tree = build_huffman_tree(b"aaaaaa").unwrap();
    // An empty payload decodes to the empty buffer whatever the tree.
    assert_eq!(huffman_decode(&[], &tree).unwrap(), Vec::<u8>::new());
    // The only valid nonempty payload for a single leaf is the lone zero
    // trailer byte; anything else is a malformed artifact.
    assert_eq!(huffman_decode(&[0], &tree).unwrap(), b"aaaaaa");
    assert!(huffman_decode(&[7], &tree).is_err());
    assert!(huffman_decode(&[0xAB, 0x03], &tree).is_err());
}

#[test]
fn test_huffman_codes_deterministic() {
    let mut dictionary = AdaptiveDictionary::new();
    dictionary.update(b"a deterministic tree gives a deterministic code map");
    let first_tree = build_huffman_tree_with_dictionary(&dictionary).unwrap();
    let second_tree = build_huffman_tree_with_dictionary(&dictionary).unwrap();
    let mut first_codes: Vec<Option<Vec<u8>>> = vec![None; 256];
    let mut second_codes: Vec<Option<Vec<u8>>> = vec![None; 256];
    generate_huffman_codes(&first_tree, &mut vec![], &mut first_codes);
    generate_huffman_codes(&second_tree, &mut vec![], &mut second_codes);
    assert_eq!(first_codes, second_codes);
}

#[test]
fn test_huffman_decode_bad_trailer() {
    let tree = create_test_tree().unwrap();
    // The trailer byte must be 1 through 8 once the payload holds data.
    assert!(huffman_decode(&[0xAB, 0xCD, 9], &tree).is_err());
    assert!(huffman_decode(&[0xAB, 0xCD, 0], &tree).is_err());
}

#[test]
fn test_huffman_exact_code_lengths() {
    // Frequencies 1, 1, 2: the two rare bytes get two-bit codes and the
    // common byte a one-bit code.
    let mut dictionary = AdaptiveDictionary::new();
    dictionary.update(b"xyzz");
    let tree = build_huffman_tree_with_dictionary(&dictionary).unwrap();
    let mut codes: Vec<Option<Vec<u8>>> = vec![None; 256];
    generate_huffman_codes(&tree, &mut vec![], &mut codes);
    assert_eq!(codes[b'x' as usize].as_ref().unwrap().len(), 2);
    assert_eq!(codes[b'y' as usize].as_ref().unwrap().len(), 2);
    assert_eq!(codes[b'z' as usize].as_ref().unwrap().len(), 1);
}
