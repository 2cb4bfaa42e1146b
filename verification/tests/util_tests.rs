use indexer_core::utils::{
    bytes32_from_inputs, center_align, first32_bytes_to_bytes32, first8_bytes_to_u64,
    format_exec_msg, is_opt_env_var, rightpad_whitespace, sha256_digest, trim_opt_env_key,
    trim_sized_ascii_string, type_id, u64_id, u64_id_from_inputs,
};

#[test]
fn digest_of_empty_input_is_the_known_value() {
    assert_eq!(
        sha256_digest(b""),
        "e3b0c44298fc1c149afbf4c8996fb92427ae41e4649b934ca495991b7852b855"
    );
}

#[test]
fn word_id_reads_little_endian() {
    assert_eq!(u64_id(&[1, 2, 3, 4, 5, 6, 7, 8]), 0x0807060504030201u64);
}

#[test]
fn first8_bytes_take_the_hex_prefix() {
    // The first eight hex characters of the digest of the empty input
    // are "e3b0c442"; their ASCII bytes read little-endian.
    assert_eq!(first8_bytes_to_u64(b""), 0x3234346330623365u64);
}

#[test]
fn first32_bytes_take_the_wide_hex_prefix() {
    let b = first32_bytes_to_bytes32(b"");
    assert_eq!(b.bytes, b"e3b0c44298fc1c149afbf4c8996fb924".to_vec());
}

#[test]
fn salted_ids_join_identity_and_inputs() {
    let id = [7u8; 32];
    let joined: Vec<u8> = id.iter().cloned().chain(vec![1u8, 2u8]).collect();
    assert_eq!(
        u64_id_from_inputs(&id, vec![1, 2]),
        first8_bytes_to_u64(&joined)
    );
    assert_eq!(
        bytes32_from_inputs(&id, vec![1, 2]).bytes,
        first32_bytes_to_bytes32(&joined).bytes
    );
}

#[test]
fn type_ids_are_stable() {
    assert_eq!(type_id("ns_idx", "Thing1"), type_id("ns_idx", "Thing1"));
    assert_ne!(type_id("ns_idx", "Thing1"), type_id("ns_idx", "Thing2"));
}

#[test]
fn env_keys_are_recognised_and_trimmed() {
    assert!(is_opt_env_var("$FOO"));
    assert!(is_opt_env_var("${FOO}"));
    assert!(!is_opt_env_var("FOO"));
    assert_eq!(trim_opt_env_key("$FOO"), "FOO");
    assert_eq!(trim_opt_env_key("${FOO}"), "FOO");
}

#[test]
fn padding_behaves_like_format_alignment() {
    assert_eq!(rightpad_whitespace("ab", 4), "ab  ");
    assert_eq!(rightpad_whitespace("abcd", 2), "abcd");
    assert_eq!(center_align("ab", 5), " ab  ");
    assert_eq!(center_align("ab", 2), "ab");
}

#[test]
fn exec_messages_pad_to_the_column() {
    assert_eq!(
        format_exec_msg("forc", Some("/usr/bin/forc".to_string())),
        format!("{:<55}", "/usr/bin/forc")
    );
    assert_eq!(
        format_exec_msg("forc", None),
        format!("{:<55}", "Can't locate forc.")
    );
}

#[test]
fn sized_ascii_strings_trim_trailing_spaces() {
    assert_eq!(trim_sized_ascii_string("abc   "), "abc");
    assert_eq!(trim_sized_ascii_string("abc"), "abc");
    assert_eq!(trim_sized_ascii_string("   "), "");
}
