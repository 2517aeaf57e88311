use md_docs::codec::{denormalize_path, normalize_path};

fn segs(v: &[&str]) -> Vec<String> {
    v.iter().map(|s| s.to_string()).collect()
}

#[test]
fn test_normalize_path_encodes_slash() {
    let path = segs(&["js", "basic", "array"]);
    let result = normalize_path(&path);
    assert_eq!(result, "js%2Fbasic%2Farray");
}

#[test]
fn test_normalize_path_preserves_unreserved_chars() {
    let path = segs(&["test-file_123", "dir.name~"]);
    let result = normalize_path(&path);
    assert!(result.contains("test-file_123"));
    assert!(result.contains("dir.name~"));
    assert!(result.contains("%2F"));
}

#[test]
fn test_normalize_path_encodes_special_chars() {
    let path = segs(&["file with spaces", "file#name"]);
    let result = normalize_path(&path);
    assert!(result.contains("%20"));
    assert!(result.contains("%23"));
}

#[test]
fn test_normalize_denormalize_roundtrip() {
    let segments = segs(&["js", "basic", "array"]);
    let normalized = normalize_path(&segments);
    let denormalized = denormalize_path(&normalized);
    assert_eq!(segments, denormalized);
}

#[test]
fn test_normalize_path_matches_encodeuricomponent_behavior() {
    let unreserved = segs(&["ABC", "xyz", "123"]);
    let result = normalize_path(&unreserved);
    assert_eq!(result, "ABC%2Fxyz%2F123");

    let path = segs(&["A-Z_a-z0-9.-~"]);
    let result = normalize_path(&path);
    assert_eq!(result, "A-Z_a-z0-9.-~");
}

#[test]
fn test_path_normalization() {
    let path = segs(&["js", "basic", "array"]);
    let normalized = normalize_path(&path);
    assert_eq!(normalized, "js%2Fbasic%2Farray");

    let denormalized = denormalize_path(&normalized);
    assert_eq!(denormalized, path);
}

#[test]
fn encodes_every_reserved_byte_in_upper_case_hex() {
    let path = segs(&["a b!\"#$%&'()*+,:;<=>?@[\\]^`{|}"]);
    assert_eq!(
        normalize_path(&path),
        "a%20b%21%22%23%24%25%26%27%28%29%2A%2B%2C%3A%3B%3C%3D%3E%3F%40%5B%5C%5D%5E%60%7B%7C%7D"
    );
}

#[test]
fn encodes_non_ascii_text_as_utf8_bytes() {
    let path = segs(&["café", "文档"]);
    assert_eq!(normalize_path(&path), "caf%C3%A9%2F%E6%96%87%E6%A1%A3");
}

#[test]
fn encodes_control_characters() {
    let path = segs(&["a\tb\u{7f}"]);
    assert_eq!(normalize_path(&path), "a%09b%7F");
}

#[test]
fn round_trip_keeps_printable_text() {
    let segments = segs(&["notes & drafts", "100% done?", "日本語", "x~y.z_w-v"]);
    assert_eq!(denormalize_path(&normalize_path(&segments)), segments);
}

#[test]
fn empty_key_decodes_to_one_empty_segment() {
    assert_eq!(denormalize_path(""), vec![String::new()]);
}

#[test]
fn empty_path_encodes_to_empty_key() {
    assert_eq!(normalize_path(&Vec::new()), "");
}

#[test]
fn decoding_accepts_lower_case_hex() {
    assert_eq!(denormalize_path("a%2fb%41"), segs(&["a", "bA"]));
}

#[test]
fn decoding_keeps_a_lone_percent_sign() {
    assert_eq!(denormalize_path("50%"), segs(&["50%"]));
    assert_eq!(denormalize_path("%zz"), segs(&["%zz"]));
}

#[test]
fn decoding_splits_at_every_slash() {
    assert_eq!(denormalize_path("a/b%2Fc"), segs(&["a", "b", "c"]));
    assert_eq!(denormalize_path("%2Fa%2F"), segs(&["", "a", ""]));
}

#[test]
fn decoding_reads_invalid_utf8_lossily() {
    assert_eq!(denormalize_path("%FFa"), segs(&["\u{FFFD}a"]));
}

#[test]
fn encode_path_string_leaves_keys_alone() {
    use_encode("js/basic/array", "js%2Fbasic%2Farray");
    use_encode("js%2Fbasic%2Farray", "js%2Fbasic%2Farray");
    use_encode("array", "array");
    use_encode("file with spaces", "file%20with%20spaces");
    use_encode("100%", "100%25");
    use_encode("a%2fb", "a%2fb");
}

#[test]
fn encode_path_string_twice_is_once() {
    for s in ["a b/c", "x%2", "plain", "%41%zz", "日本"] {
        let once = md_docs::codec::encode_path_string(s);
        assert_eq!(md_docs::codec::encode_path_string(&once), once);
    }
}

fn use_encode(input: &str, expected: &str) {
    assert_eq!(md_docs::codec::encode_path_string(input), expected);
}
