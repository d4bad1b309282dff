use psmux::base64::{base64_decode, base64_encode};

#[test]
fn encode_known_vectors() {
    assert_eq!(base64_encode(""), "");
    assert_eq!(base64_encode("f"), "Zg==");
    assert_eq!(base64_encode("fo"), "Zm8=");
    assert_eq!(base64_encode("foo"), "Zm9v");
    assert_eq!(base64_encode("foob"), "Zm9vYg==");
    assert_eq!(base64_encode("fooba"), "Zm9vYmE=");
    assert_eq!(base64_encode("foobar"), "Zm9vYmFy");
    assert_eq!(base64_encode("hello"), "aGVsbG8=");
}

#[test]
fn encode_uses_utf8_bytes() {
    assert_eq!(base64_encode("é"), "w6k=");
    assert_eq!(base64_encode("ÿ?>"), "w78/Pg==");
}

#[test]
fn decode_known_vectors() {
    assert_eq!(base64_decode("Zm9vYmFy"), Some("foobar".to_string()));
    assert_eq!(base64_decode("Zm9vYmE="), Some("fooba".to_string()));
    assert_eq!(base64_decode("Zm9vYg=="), Some("foob".to_string()));
    assert_eq!(base64_decode(""), Some(String::new()));
    assert_eq!(base64_decode("w6k="), Some("é".to_string()));
}

#[test]
fn decode_ignores_padding_anywhere() {
    assert_eq!(base64_decode("aGVsbG8"), Some("hello".to_string()));
    assert_eq!(base64_decode("aGV=sbG8=="), Some("hello".to_string()));
}

#[test]
fn decode_ignores_a_single_trailing_symbol() {
    assert_eq!(base64_decode("Zm9vY"), Some("foo".to_string()));
    assert_eq!(base64_decode("Zm9v!"), Some("foo".to_string()));
    assert_eq!(base64_decode("a"), Some(String::new()));
}

#[test]
fn decode_rejects_bytes_outside_the_alphabet() {
    assert_eq!(base64_decode("Zm9v!mFy"), None);
    assert_eq!(base64_decode("Z m9v"), None);
    assert_eq!(base64_decode("-_=="), None);
}

#[test]
fn decode_rejects_invalid_utf8() {
    assert_eq!(base64_decode("/w=="), None);
    assert_eq!(base64_decode("gA=="), None);
}

#[test]
fn encode_then_decode_gives_the_text_back() {
    for text in ["", "a", "ab", "abc", "abcd", "cc 123", "say \"hi\"", "C:\\Users\\foo", "ÈªëÈ£éÈõ∑", "👨‍👩‍👧", "\u{0}\u{7f}\u{80}"] {
        assert_eq!(base64_decode(&base64_encode(text)), Some(text.to_string()));
    }
}

#[test]
fn encoding_of_whole_groups_concatenates() {
    assert_eq!(base64_encode("Manhello"), base64_encode("Man") + &base64_encode("hello"));
    assert_eq!(base64_encode("é!x"), base64_encode("é!") + &base64_encode("x"));
}

#[test]
fn decoding_ignores_equals_signs_anywhere() {
    assert_eq!(base64_decode("TW=Fu"), Some("Man".to_string()));
    assert_eq!(base64_decode("=T=W=F=u="), base64_decode("TWFu"));
}
