use luna::codec::{deserialize_simple_map, serialize_simple_map};
use std::collections::HashMap;

fn pairs(items: &[(&str, &str)]) -> Vec<(String, String)> {
    items.iter().map(|(k, v)| (k.to_string(), v.to_string())).collect()
}

#[test]
fn test_serialize_deserialize() {
    let original = pairs(&[("key1", "value1"), ("key:2", "value;2")]);
    let serialized = serialize_simple_map(&original);
    let deserialized = deserialize_simple_map(&serialized);
    let a: HashMap<String, String> = original.iter().cloned().collect();
    let b: HashMap<String, String> = deserialized.iter().cloned().collect();
    assert_eq!(a, b);
    assert_eq!(original, deserialized);
}

#[test]
fn serialized_text_escapes_separators() {
    let m = pairs(&[("key1", "value1"), ("key:2", "value;2"), ("back\\slash", "")]);
    assert_eq!(serialize_simple_map(&m), "key1:value1;key\\:2:value\\;2;back\\\\slash:");
    assert_eq!(serialize_simple_map(&Vec::new()), "");
}

#[test]
fn later_keys_win_and_pieces_without_colon_are_skipped() {
    let d = deserialize_simple_map("a;b:c;b:d;e:f:g");
    assert_eq!(d, pairs(&[("b", "d"), ("e", "f:g")]));
    assert!(deserialize_simple_map("").is_empty());
}

#[test]
fn unknown_escapes_and_trailing_backslash_are_kept() {
    let d = deserialize_simple_map("a\\x:b\\");
    assert_eq!(d, pairs(&[("a\\x", "b\\")]));
}

#[test]
fn roundtrip_of_awkward_values() {
    let m = pairs(&[("", ""), (":;\\", "\\\\;;"), ("plain", "x:y")]);
    assert_eq!(deserialize_simple_map(&serialize_simple_map(&m)), m);
}
