use quantum_pack::preprocessor::Preprocessor;

#[test]
fn test_basic_functionality() {
    let mut preprocessor = Preprocessor::new();
    let data = b"The quick brown fox jumps over the lazy dog";
    let processed = preprocessor.preprocess(data);
    assert!(!processed.is_empty());
}

#[test]
fn test_empty_input() {
    let mut preprocessor = Preprocessor::new();
    let data = b"";
    let processed = preprocessor.preprocess(data);
    assert!(processed.is_empty());
}

#[test]
fn test_pattern_recognition() {
    let mut preprocessor = Preprocessor::new();
    let data = b"aaabbbccc"; // Repeating patterns
    let processed = preprocessor.preprocess(data);
    assert!(!processed.is_empty());

    // Three distinct bytes cap patterns at two bytes; codes run 1='a',
    // 2='b', 3='c', 4="aa", 5="bb", 6="cc". The greedy pass yields the
    // codes 4, 'a', 5, 'b', 6, 'c', and the rare single-byte codes are
    // re-encoded behind the escape marker.
    assert_eq!(processed, vec![4, 255, 1, 5, 255, 2, 6, 255, 3]);
    let restored = preprocessor.reverse_transform_data(&processed).unwrap();
    assert_eq!(restored, data);
}

#[test]
fn test_variance_based_pattern_length() {
    let preprocessor = Preprocessor::new();
    let low_variance_data = [1u8; 100]; // Low variance
    let high_variance_data = (0u8..100).collect::<Vec<u8>>(); // High variance

    assert_eq!(preprocessor.determine_max_pattern_length(&low_variance_data), 2);
    assert_eq!(preprocessor.determine_max_pattern_length(&high_variance_data), 4);
}

#[test]
fn test_parallel_processing_consistency() {
    let preprocessor = Preprocessor::new();
    let data = b"Data that is long enough to be split across threads";
    let processed_parallel = preprocessor.parallel_transform_data(data, 4);
    let processed_sequential = preprocessor.transform_data(data);

    assert_eq!(processed_parallel, processed_sequential);
}

#[test]
fn test_encode_code_high_frequency() {
    let preprocessor = Preprocessor::new();
    let encoded = preprocessor.encode_code(10, 101);
    assert_eq!(encoded, vec![10]);
}

#[test]
fn test_encode_code_low_frequency() {
    let preprocessor = Preprocessor::new();
    let encoded = preprocessor.encode_code(10, 50);
    assert_eq!(encoded, vec![0xFF, 10]);
}

#[test]
fn test_reverse_transform_data_basic() {
    let mut preprocessor = Preprocessor::new();
    // One record: code 1, pattern "ab".
    preprocessor.deserialize_dictionary(&[0, 1, 2, 97, 98]).unwrap();
    let data = vec![1];
    let decoded = preprocessor.reverse_transform_data(&data).unwrap();
    assert_eq!(decoded, vec![97, 98]);
}

#[test]
fn test_reverse_transform_data_no_pattern() {
    let preprocessor = Preprocessor::new();
    let data = vec![1, 2, 3];
    let decoded = preprocessor.reverse_transform_data(&data).unwrap();
    assert_eq!(decoded, data);
}

#[test]
fn test_reverse_transform_data_various_patterns() {
    let mut preprocessor = Preprocessor::new();
    // Two records: code 1 is 'a', code 2 is 'b'.
    preprocessor.deserialize_dictionary(&[0, 1, 1, 97, 0, 2, 1, 98]).unwrap();
    let data = vec![1, 2, 1, 2];
    let decoded = preprocessor.reverse_transform_data(&data).unwrap();
    assert_eq!(decoded, vec![97, 98, 97, 98]);
}

#[test]
fn test_preprocessor_simple_data() {
    let mut preprocessor = Preprocessor::new();
    let data = b"AAAABBBBCCCCAAAABBBB"; // Simple repeating pattern

    // Compress the data
    let compressed = preprocessor.preprocess(data);
    assert_ne!(compressed, data.to_vec());

    // Decompress the data
    let decompressed = preprocessor.reverse_transform_data(&compressed).unwrap();
    assert_eq!(decompressed, data);
}

#[test]
fn test_preprocessing_determinism() {
    let input_data = b"Lorem Ipsum is simply dummy text of the printing and typesetting industry. Lorem Ipsum has been the industry's standard dummy text ever since the 1500s, when an unknown printer took a galley of type and scrambled it to make a type specimen book. It has survived not only five centuries, but also the leap into electronic typesetting, remaining essentially unchanged. It was popularised in the 1960s with the release of Letraset sheets containing Lorem Ipsum passages, and more recently with desktop publishing software like Aldus PageMaker including versions of Lorem Ipsum.";
    let mut preprocessor = Preprocessor::new();
    let mut preprocessor2 = Preprocessor::new();

    let first_run = preprocessor.preprocess(input_data);
    let second_run = preprocessor2.preprocess(input_data);

    assert_eq!(first_run, second_run, "Preprocessing should be deterministic");
}

#[test]
fn test_reverse_preprocessing_determinism() {
    let input_data = b"Example data for testing determinism in reverse preprocessing";
    let mut preprocessor = Preprocessor::new();
    let processed_data = preprocessor.preprocess(input_data);

    let first_run = preprocessor.reverse_transform_data(&processed_data).unwrap();
    let second_run = preprocessor.reverse_transform_data(&processed_data).unwrap();

    assert_eq!(first_run, second_run, "Reverse preprocessing should be deterministic");
}

#[test]
fn test_full_cycle_determinism() {
    let input_data = b"Example data for testing determinism in full cycle";
    let mut preprocessor = Preprocessor::new();

    let processed_data = preprocessor.preprocess(input_data);
    let recovered_data = preprocessor.reverse_transform_data(&processed_data).unwrap();

    assert_eq!(
        input_data.to_vec(),
        recovered_data,
        "Full cycle (preprocess and reverse) should be deterministic and lossless"
    );
}

#[test]
fn test_pattern_overlaps() {
    let mut preprocessor = Preprocessor::new();
    let data = b"ababcabcd"; // Overlapping patterns 'ab', 'abc', and 'abcd'
    let processed = preprocessor.preprocess(data);

    assert!(
        processed.len() < data.len(),
        "Data should be compressed with overlapping patterns recognized"
    );
}

#[test]
fn test_space_character_handling() {
    let mut preprocessor = Preprocessor::new();
    let data = b"Rescuers in India have freed 41 workers who had been trapped in a collapsed Himalayan tunnel for 17 days. Miners drilled the final section by hand to reach the workers in the";
    let processed = preprocessor.preprocess(data);

    // Every space is folded into a pattern or a code: the stream shrinks,
    // and a byte value in the output is a code byte, not a literal (code
    // bytes may take any value up to 254, so a byte-value probe would not
    // tell a code from a literal).
    assert!(processed.len() < data.len(), "Space characters should be compressed");

    // Decompression test
    let decompressed = preprocessor.reverse_transform_data(&processed).unwrap();
    assert_eq!(decompressed, data, "Decompressed data should match original, including spaces");
}

#[test]
fn test_pattern_discovery_repeated_pair() {
    // Two distinct bytes cap patterns at two; "ab" is found four times.
    // Codes run 1='a', 2="ab", 3='b', 4="ba", so the greedy pass turns the
    // buffer into four repetitions of code 2.
    let mut preprocessor = Preprocessor::new();
    let data = b"abababab";
    assert_eq!(preprocessor.determine_max_pattern_length(data), 2);
    let processed = preprocessor.preprocess(data);
    assert_eq!(processed, vec![2, 2, 2, 2]);
    let restored = preprocessor.reverse_transform_data(&processed).unwrap();
    assert_eq!(restored, data);
}

#[test]
fn test_parallel_matches_sequential_on_aligned_chunks() {
    // Five chunks of four bytes: every greedy match is a two-byte pair at an
    // even offset, so none straddles a boundary and the chunked pass agrees
    // with the whole-buffer pass.
    let mut preprocessor = Preprocessor::new();
    let data = b"AAAABBBBCCCCAAAABBBB";
    let whole = preprocessor.preprocess(data);
    let chunked = preprocessor.parallel_transform_data(data, 5);
    assert_eq!(chunked, whole);
    assert_eq!(chunked, preprocessor.transform_data(data));
}

#[test]
fn test_pattern_table_round_trip() {
    let mut preprocessor = Preprocessor::new();
    preprocessor.preprocess(b"abcabcabc banana cabana");
    let serialized = preprocessor.serialize_dictionary();
    let mut restored = Preprocessor::new();
    restored.deserialize_dictionary(&serialized).unwrap();
    assert_eq!(restored.serialize_dictionary(), serialized);
}

#[test]
fn test_deserialize_dictionary_rejects_bad_codes() {
    let mut preprocessor = Preprocessor::new();
    // The first record must carry code 1.
    assert!(preprocessor.deserialize_dictionary(&[0, 2, 1, 97]).is_err());
    // A zero-length pattern is refused.
    assert!(preprocessor.deserialize_dictionary(&[0, 1, 0]).is_err());
    // A record cut short is refused.
    assert!(preprocessor.deserialize_dictionary(&[0, 1, 5, 97]).is_err());
}

#[test]
fn test_reverse_transform_truncated_escape() {
    let preprocessor = Preprocessor::new();
    // The escape marker with no code byte after it is a format error.
    assert!(preprocessor.reverse_transform_data(&[0xFF]).is_err());
    // An escaped code with no table entry is a format error.
    assert!(preprocessor.reverse_transform_data(&[0xFF, 1]).is_err());
    // The literal escape cut short is a format error.
    assert!(preprocessor.reverse_transform_data(&[0xFF, 0]).is_err());
}

#[test]
fn test_reverse_transform_escaped_literal() {
    let preprocessor = Preprocessor::new();
    // The escape marker and the reserved code zero carry one literal byte.
    let decoded = preprocessor.reverse_transform_data(&[0xFF, 0, 5, 97]).unwrap();
    assert_eq!(decoded, vec![5, 97]);
}
