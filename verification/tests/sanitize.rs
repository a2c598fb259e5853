use spyglass::identity::{hex, mask, sha256_hex, template_id};
use spyglass::sanitize::{cap_str, header_is_dropped, key_is_secret, sanitize_headers, HEADER_VALUE_CAP};

fn pairs(v: &[(&str, &str)]) -> Vec<(String, String)> {
    v.iter().map(|(k, x)| (k.to_string(), x.to_string())).collect()
}

#[test]
fn auth_shaped_headers_are_dropped_and_the_rest_kept_lowercased() {
    let h = pairs(&[
        ("Content-Type", "application/json"),
        ("Authorization", "Bearer x"),
        ("Cookie", "a=b"),
        ("X-Client-Class", "premium"),
        ("X-Auth-Token", "t"),
        ("X-Idempotency-Key", "k"),
        ("User-Agent", "ua"),
    ]);
    let (kept, dropped) = sanitize_headers(&h);
    assert_eq!(
        kept.iter().map(|(k, _)| k.clone()).collect::<Vec<_>>(),
        vec!["content-type", "user-agent", "x-client-class", "x-idempotency-key"]
    );
    assert_eq!(dropped, vec!["authorization", "cookie", "x-auth-token"]);
}

#[test]
fn header_values_are_capped_on_a_char_boundary() {
    let long = "é".repeat(300);
    let (kept, _) = sanitize_headers(&pairs(&[("user-agent", long.as_str())]));
    let v = &kept[0].1;
    assert!(v.ends_with("…[capped]"));
    assert!(v.len() <= HEADER_VALUE_CAP + "…[capped]".len());
}

// ------------------------------------------------------------------ more

#[test]
fn the_last_value_of_a_repeated_name_wins() {
    let (kept, dropped) = sanitize_headers(&pairs(&[("Accept", "a"), ("accept", "b"), ("X-Session-Id", "s")]));
    assert_eq!(kept, vec![("accept".to_string(), "b".to_string())]);
    assert_eq!(dropped, vec!["x-session-id"]);
}

#[test]
fn cap_str_cuts_at_the_last_boundary_at_or_below_the_cap() {
    assert_eq!(cap_str("hello", 5), "hello");
    assert_eq!(cap_str("hello", 3), "hel…[capped]");
    // "é" is two bytes: a cut at 3 bytes keeps one of them.
    assert_eq!(cap_str("ééé", 3), "é…[capped]");
    assert_eq!(cap_str("ééé", 0), "…[capped]");
    assert_eq!(cap_str("", 0), "");
}

#[test]
fn header_names_are_matched_lowercased_exactly_or_by_fragment() {
    assert!(header_is_dropped("Authorization"));
    assert!(header_is_dropped("X-CSRF-Token"));
    assert!(header_is_dropped("x-my-password-hint"));
    assert!(header_is_dropped("Set-Cookie"));
    assert!(!header_is_dropped("Content-Type"));
    assert!(!header_is_dropped("x-request-id"));
}

#[test]
fn secret_keys_are_compared_without_separators_or_by_suffix() {
    assert!(key_is_secret("password"));
    assert!(key_is_secret("Card_Number"));
    assert!(key_is_secret("session_token"));
    assert!(key_is_secret("x-api-key"));
    assert!(key_is_secret("api_key"));
    assert!(key_is_secret("PIN"));
    assert!(!key_is_secret("token_count"));
    assert!(!key_is_secret("customer"));
    // A key equal to a suffix is secret as a key, not as a suffix.
    assert!(key_is_secret("secret"));
}

#[test]
fn hex_writes_two_lowercase_digits_per_byte() {
    assert_eq!(hex(&[0x00, 0x0f, 0xa5, 0xff]), "000fa5ff");
    assert_eq!(hex(&[]), "");
}

#[test]
fn sha256_hex_of_the_empty_string() {
    assert_eq!(sha256_hex(b""), "e3b0c44298fc1c149afbf4c8996fb92427ae41e4649b934ca495991b7852b855");
}

#[test]
fn template_ids_are_t_dash_and_twelve_hex_digits_of_the_pattern() {
    assert_eq!(template_id(""), "T-e3b0c44298fc");
    let a = template_id("user <*> logged in");
    assert!(a.starts_with("T-") && a.len() == 14);
    assert_eq!(a, template_id("user <*> logged in"));
    assert_ne!(a, template_id("user <*> logged out"));
}

#[test]
fn masking_replaces_ids_numbers_currencies_and_timestamps() {
    assert_eq!(mask("charged 42 EUR for order ord_1234567890ab"), "charged <*> <*> for order <*>");
    assert_eq!(mask("req d49edd91-2f1f-4132-826b-2236e4a07521 at 2026-08-29T09:27:45.287Z"), "req <*> at <*>");
    assert_eq!(mask("latency 12.5 ms"), "latency <*> ms");
    assert_eq!(mask("no variables here"), "no variables here");
}
