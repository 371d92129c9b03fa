use quantum_pack::adaptive_dictionary::AdaptiveDictionary;
use quantum_pack::compression::{
    compress, decompress, deserialize_frequency_table, read_container, serialize_frequency_table,
    write_container,
};
use quantum_pack::huffman::{build_huffman_tree, generate_huffman_codes, huffman_decode, huffman_encode};
use quantum_pack::preprocessor::Preprocessor;

#[test]
fn test_huffman_with_preprocessor_integration() {
    let input_data = b"The quick brown fox jumps over the lazy dog";

    let mut preprocessor = Preprocessor::new();
    let processed_data = preprocessor.preprocess(input_data);

    let mut dictionary = AdaptiveDictionary::new();
    dictionary.update(&processed_data);
    let huffman_tree = build_huffman_tree(&processed_data).unwrap();
    let mut codes: Vec<Option<Vec<u8>>> = vec![None; 256];
    generate_huffman_codes(&huffman_tree, &mut Vec::new(), &mut codes);

    let encoded_data = huffman_encode(&processed_data, &codes);

    let decoded_data = huffman_decode(&encoded_data, &huffman_tree).unwrap();

    let original_data = preprocessor.reverse_transform_data(&decoded_data).unwrap();

    assert_eq!(original_data, input_data);
}

#[test]
fn test_serialize_frequency_table() {
    let mut dictionary = AdaptiveDictionary::new();
    dictionary.set_count(97, 3); // 'a' = 3
    dictionary.set_count(98, 2); // 'b' = 2
    dictionary.set_count(99, 1); // 'c' = 1

    let serialized = serialize_frequency_table(&dictionary);
    println!("{:?}", serialized);
    let expected = [97, 0, 0, 0, 3, 98, 0, 0, 0, 2, 99, 0, 0, 0, 1];

    assert_eq!(serialized, expected);
}

#[test]
fn test_deserialize_frequency_table() {
    let data = [97, 0, 0, 0, 3, 98, 0, 0, 0, 2, 99, 0, 0, 0, 1];

    let dictionary = deserialize_frequency_table(&data).unwrap();

    assert_eq!(dictionary.count_of(97), 3); // 'a' = 3
    assert_eq!(dictionary.count_of(98), 2); // 'b' = 2
    assert_eq!(dictionary.count_of(99), 1); // 'c' = 1
}

#[test]
fn test_compress_empty_input() {
    let (payload, freq_bytes, pattern_bytes) = compress(b"");
    assert!(payload.is_empty());
    assert!(freq_bytes.is_empty());
    assert!(pattern_bytes.is_empty());
    let restored = decompress(&payload, &freq_bytes, &pattern_bytes).unwrap();
    assert!(restored.is_empty());
}

#[test]
fn test_compress_decompress_round_trip_text() {
    let data = b"the rain in spain stays mainly in the plain, the rain again";
    let (payload, freq_bytes, pattern_bytes) = compress(data);
    let restored = decompress(&payload, &freq_bytes, &pattern_bytes).unwrap();
    assert_eq!(restored, data);
}

#[test]
fn test_compress_decompress_round_trip_binary() {
    // Binary content: every byte value present occurs repeatedly, so each
    // gets its own code and no literal collides with a code value.
    let mut data = Vec::new();
    for _ in 0..6 {
        data.extend_from_slice(&[200u8, 201, 202, 250, 251, 250]);
    }
    let (payload, freq_bytes, pattern_bytes) = compress(&data);
    let restored = decompress(&payload, &freq_bytes, &pattern_bytes).unwrap();
    assert_eq!(restored, data);
}

#[test]
fn test_compress_determinism() {
    let data = b"compress me twice and compare every byte of all three parts";
    let first = compress(data);
    let second = compress(data);
    assert_eq!(first.0, second.0);
    assert_eq!(first.1, second.1);
    assert_eq!(first.2, second.2);
}

#[test]
fn test_frequency_table_round_trip() {
    let mut dictionary = AdaptiveDictionary::new();
    dictionary.set_count(0, 1);
    dictionary.set_count(17, 42);
    dictionary.set_count(255, 0x0102_0304);
    let serialized = serialize_frequency_table(&dictionary);
    let restored = deserialize_frequency_table(&serialized).unwrap();
    for b in 0..=255u8 {
        assert_eq!(restored.count_of(b), dictionary.count_of(b));
    }
}

#[test]
fn test_deserialize_frequency_table_truncated() {
    // Six bytes is one whole record plus a fragment: a truncated table.
    assert!(deserialize_frequency_table(&[97, 0, 0, 0, 3, 98]).is_err());
    // The same corruption is caught by decompress.
    assert!(decompress(&[], &[97, 0, 0, 0, 3, 98], &[]).is_err());
}

#[test]
fn test_compress_decompress_colliding_literals() {
    // The rare bytes 0x01 and 0xFF collide with the code channel: 0x01 falls
    // in the code range and 0xFF is the escape marker. Both travel behind
    // the escape marker with the reserved code zero, so the round trip holds
    // on arbitrary binary content.
    let data = b"xyxyxyxy\x01\xff";
    let (payload, freq_bytes, pattern_bytes) = compress(data);
    let restored = decompress(&payload, &freq_bytes, &pattern_bytes).unwrap();
    assert_eq!(restored, data);
}

#[test]
fn test_container_round_trip() {
    let payload = vec![9u8, 8, 7, 6];
    let freq_bytes = vec![1u8, 2, 3];
    let pattern_bytes = vec![4u8, 5];
    let container = write_container(&payload, &freq_bytes, &pattern_bytes);
    let (p, f, t) = read_container(&container).unwrap();
    assert_eq!(p, payload);
    assert_eq!(f, freq_bytes);
    assert_eq!(t, pattern_bytes);
}

#[test]
fn test_read_container_truncated() {
    assert!(read_container(&[0, 0]).is_err());
    // A frequency-table length that runs past the end of the buffer.
    assert!(read_container(&[0, 0, 0, 9, 1, 2, 3]).is_err());
}
