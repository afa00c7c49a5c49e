use hypercompress::dictionary::Dictionary;

#[test]
fn test_build_dictionary() {
    let mut data = Vec::new();
    for _ in 0..100 {
        data.extend_from_slice(b"hello world ");
    }
    let dict = Dictionary::build_from_data(&data, 100);
    assert!(!dict.entries.is_empty());
}

#[test]
fn test_serialize_deserialize() {
    let mut data = Vec::new();
    for _ in 0..50 {
        data.extend_from_slice(b"test pattern data here ");
    }
    let dict = Dictionary::build_from_data(&data, 50);
    let serialized = dict.serialize();
    let restored = Dictionary::deserialize(&serialized).unwrap();
    assert_eq!(dict.entries.len(), restored.entries.len());
}

#[test]
fn test_empty_dictionary() {
    let dict = Dictionary::new();
    assert!(dict.find(b"anything").is_none());
    let serialized = dict.serialize();
    let restored = Dictionary::deserialize(&serialized).unwrap();
    assert_eq!(restored.entries.len(), 0);
}

#[test]
fn deserialized_entries_equal_originals() {
    let data = b"abcdabcdabcdabcdabcdabcdabcdabcd xyz xyz xyz".to_vec();
    let dict = Dictionary::build_from_data(&data, 10);
    let restored = Dictionary::deserialize(&dict.serialize()).unwrap();
    assert_eq!(restored.entries, dict.entries);
}

#[test]
fn ranking_prefers_most_saved_bytes() {
    // "abcd" repeated 8 times: the 16-byte windows save 16 * count, the most of any length
    let data = b"abcdabcdabcdabcdabcdabcdabcdabcd".to_vec();
    let dict = Dictionary::build_from_data(&data, 1);
    assert_eq!(dict.entries.len(), 1);
    assert_eq!(dict.entries[0].len(), 16);
}

#[test]
fn short_input_gives_empty_dictionary() {
    let dict = Dictionary::build_from_data(b"abcabca", 10);
    assert!(dict.entries.is_empty());
    assert_eq!(dict.min_match, 4);
}

#[test]
fn find_prefers_longest_prefix() {
    let data = b"abcdabcdabcdabcdabcdabcdabcdabcd".to_vec();
    let dict = Dictionary::build_from_data(&data, 100);
    let idx = dict.find(&data).unwrap();
    assert_eq!(dict.entries[idx], data[..16].to_vec());
    let idx4 = dict.find(b"abcd").unwrap();
    assert_eq!(dict.entries[idx4], b"abcd".to_vec());
    assert!(dict.find(b"abc").is_none());
    assert!(dict.find(b"zzzz").is_none());
}

#[test]
fn serialized_layout() {
    let data = b"abcdabcdabcdabcdabcdabcdabcdabcd".to_vec();
    let dict = Dictionary::build_from_data(&data, 1);
    let s = dict.serialize();
    assert_eq!(&s[..4], &[1, 0, 0, 0]);
    assert_eq!(&s[4..6], &[16, 0]);
    assert_eq!(s.len(), 4 + 2 + 16);
}

#[test]
fn truncated_dictionary_keeps_whole_entries() {
    let bytes = vec![2, 0, 0, 0, 2, 0, b'h', b'i', 5, 0, b'x'];
    let d = Dictionary::deserialize(&bytes).unwrap();
    assert_eq!(d.entries, vec![b"hi".to_vec()]);
    assert!(Dictionary::deserialize(&[1, 0]).is_none());
}
