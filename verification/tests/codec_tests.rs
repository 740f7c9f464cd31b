use credstore::CredError;
use credstore::codec::{
    CredentialRecord, RegistryCredentials, decode_map, decode_record, decode_registry_credentials,
    encode_map, encode_record, encode_registry_credentials, encode_username_map,
};
use credstore::entries::SecretMap;
use credstore::store::{get_credentials, list_usernames, store_credentials};

fn record(u: &str, s: &str) -> CredentialRecord {
    CredentialRecord { username: String::from(u), secret: String::from(s) }
}

#[test]
fn encode_record_exact_text() {
    let r = record("u", "s");
    assert_eq!(encode_record(&r), "{\"Username\":\"u\",\"Secret\":\"s\"}");
}

#[test]
fn record_round_trip_plain() {
    let r = record("alice", "hunter2");
    let text = encode_record(&r);
    assert_eq!(decode_record(&text).unwrap(), r);
}

#[test]
fn record_round_trip_with_escapes() {
    let r = record("a\"b\\c", "line1\nline2\ttab\u{1}end");
    let text = encode_record(&r);
    assert_eq!(decode_record(&text).unwrap(), r);
}

#[test]
fn record_round_trip_unicode() {
    let r = record("ümlaut", "秘密🔑");
    let text = encode_record(&r);
    assert_eq!(decode_record(&text).unwrap(), r);
}

#[test]
fn encode_escapes_quote_and_backslash() {
    let r = record("a\"b", "c\\d");
    assert_eq!(encode_record(&r), "{\"Username\":\"a\\\"b\",\"Secret\":\"c\\\\d\"}");
}

#[test]
fn encode_escapes_control_chars_as_hex() {
    let r = record("u", "a\nb");
    assert_eq!(encode_record(&r), "{\"Username\":\"u\",\"Secret\":\"a\\u000ab\"}");
}

#[test]
fn decode_record_short_escapes_and_hex() {
    let rec = decode_record("{\"Username\":\"x\\n\\t\\\"\\\\\\/\\b\\f\\r\",\"Secret\":\"\\u0041\\u00e9\"}").unwrap();
    assert_eq!(rec.username, "x\n\t\"\\/\u{8}\u{c}\r");
    assert_eq!(rec.secret, "A\u{e9}");
}

#[test]
fn decode_record_rejects_missing_field() {
    assert_eq!(decode_record("{\"Username\":\"u\"}"), Err(CredError::Format));
    assert_eq!(decode_record("{\"Secret\":\"s\"}"), Err(CredError::Format));
    assert_eq!(decode_record("{}"), Err(CredError::Format));
}

#[test]
fn decode_record_rejects_duplicate_field() {
    assert_eq!(
        decode_record("{\"Username\":\"u\",\"Username\":\"v\",\"Secret\":\"s\"}"),
        Err(CredError::Format)
    );
}

#[test]
fn decode_record_ignores_extra_string_field() {
    let rec = decode_record("{\"Username\":\"u\",\"Note\":\"x\",\"Secret\":\"s\"}").unwrap();
    assert_eq!(rec, record("u", "s"));
}

#[test]
fn decode_record_ignores_extra_members_of_any_kind() {
    let rec = decode_record(
        "{\"Username\":\"u\",\"N\":5,\"B\":true,\"Z\":null,\"F\":-1.5e+10,\"A\":[1,[\"x\",{}],false],\"O\":{\"k\":{\"d\":[]}},\"Secret\":\"s\"}",
    )
    .unwrap();
    assert_eq!(rec, record("u", "s"));
}

#[test]
fn decode_record_rejects_non_string_known_field() {
    assert_eq!(decode_record("{\"Username\":5,\"Secret\":\"s\"}"), Err(CredError::Format));
    assert_eq!(
        decode_record("{\"Username\":\"u\",\"Secret\":[\"s\"]}"),
        Err(CredError::Format)
    );
}

#[test]
fn decode_record_rejects_malformed_extra_values() {
    assert_eq!(
        decode_record("{\"Username\":\"u\",\"Secret\":\"s\",\"N\":01}"),
        Err(CredError::Format)
    );
    assert_eq!(
        decode_record("{\"Username\":\"u\",\"Secret\":\"s\",\"N\":truex}"),
        Err(CredError::Format)
    );
    assert_eq!(
        decode_record("{\"Username\":\"u\",\"Secret\":\"s\",\"N\":[1,}"),
        Err(CredError::Format)
    );
    assert_eq!(
        decode_record("{\"Username\":\"u\",\"Secret\":\"s\",\"N\":{\"a\":}"),
        Err(CredError::Format)
    );
}

#[test]
fn decode_surrogate_pair_escape() {
    let rec = decode_record("{\"Username\":\"\\ud83d\\ude00\",\"Secret\":\"\\ud800\\udc00\"}").unwrap();
    assert_eq!(rec.username, "\u{1F600}");
    assert_eq!(rec.secret, "\u{10000}");
    let m = decode_map("{\"a\":\"\\uD83D\\uDE00\"}").unwrap();
    assert_eq!(m.lookup("a").unwrap(), "\u{1F600}");
}

#[test]
fn decode_rejects_lone_trailing_surrogate_escape() {
    assert_eq!(decode_map("{\"a\":\"\\udc00\"}"), Err(CredError::Format));
    assert_eq!(decode_map("{\"a\":\"\\ud800x\"}"), Err(CredError::Format));
}

#[test]
fn decode_record_rejects_non_json() {
    assert_eq!(decode_record("not-json"), Err(CredError::Format));
    assert_eq!(decode_record(""), Err(CredError::Format));
    assert_eq!(decode_record("{\"Username\":\"u\",\"Secret\":\"s\""), Err(CredError::Format));
}

#[test]
fn decode_rejects_lone_surrogate_escape() {
    assert_eq!(decode_record("{\"Username\":\"\\ud800\",\"Secret\":\"s\"}"), Err(CredError::Format));
}

#[test]
fn decode_rejects_raw_control_char() {
    assert_eq!(decode_map("{\"a\":\"x\u{1}y\"}"), Err(CredError::Format));
}

#[test]
fn encode_empty_map() {
    let m = SecretMap::new();
    assert_eq!(encode_map(&m), "{}");
}

#[test]
fn decode_empty_map() {
    let m = decode_map("{}").unwrap();
    assert_eq!(m.len(), 0);
    let m2 = decode_map("  { \t }  ").unwrap();
    assert_eq!(m2.len(), 0);
}

#[test]
fn map_round_trip_preserves_entries_and_order() {
    let mut m = decode_map("{}").unwrap();
    store_credentials(
        &mut m,
        &RegistryCredentials { server_url: String::from("https://b"), record: record("u2", "s2") },
    );
    store_credentials(
        &mut m,
        &RegistryCredentials { server_url: String::from("https://a"), record: record("u1", "s1") },
    );
    let text = encode_map(&m);
    let m2 = decode_map(&text).unwrap();
    assert_eq!(encode_map(&m2), text);
    assert_eq!(m2.len(), 2);
    assert_eq!(get_credentials(&m2, "https://a").unwrap(), record("u1", "s1"));
    assert_eq!(get_credentials(&m2, "https://b").unwrap(), record("u2", "s2"));
}

#[test]
fn decode_map_accepts_whitespace() {
    let m = decode_map(" {\n  \"a\" : \"b\" ,\r\n \"c\"\t: \"d\" }\n").unwrap();
    assert_eq!(m.len(), 2);
    assert_eq!(m.lookup("a").unwrap(), "b");
    assert_eq!(m.lookup("c").unwrap(), "d");
}

#[test]
fn decode_map_duplicate_key_last_wins() {
    let m = decode_map("{\"a\":\"1\",\"a\":\"2\"}").unwrap();
    assert_eq!(m.len(), 1);
    assert_eq!(m.lookup("a").unwrap(), "2");
}

#[test]
fn decode_map_rejects_bad_shapes() {
    assert_eq!(decode_map("not-json"), Err(CredError::Format));
    assert_eq!(decode_map("[]"), Err(CredError::Format));
    assert_eq!(decode_map("{\"a\":1}"), Err(CredError::Format));
    assert_eq!(decode_map("{\"a\":\"b\"} x"), Err(CredError::Format));
    assert_eq!(decode_map("{\"a\":\"b\",}"), Err(CredError::Format));
    assert_eq!(decode_map("{\"a\"}"), Err(CredError::Format));
    assert_eq!(decode_map(""), Err(CredError::Format));
}

#[test]
fn registry_credentials_wire_text() {
    let c = RegistryCredentials { server_url: String::from("https://x"), record: record("u", "s") };
    let text = encode_registry_credentials(&c);
    assert_eq!(text, "{\"ServerURL\":\"https://x\",\"Username\":\"u\",\"Secret\":\"s\"}");
    assert_eq!(decode_registry_credentials(&text).unwrap(), c);
}

#[test]
fn registry_credentials_field_order_is_free_on_decode() {
    let c = decode_registry_credentials(
        "{\"Secret\":\"s\",\"ServerURL\":\"https://x\",\"Username\":\"u\"}",
    )
    .unwrap();
    assert_eq!(c.server_url, "https://x");
    assert_eq!(c.record, record("u", "s"));
}

#[test]
fn registry_credentials_ignores_extra_members() {
    let c = decode_registry_credentials(
        "{\"ServerURL\":\"https://x\",\"Username\":\"u\",\"Secret\":\"s\",\"Meta\":{\"v\":2}}",
    )
    .unwrap();
    assert_eq!(c.server_url, "https://x");
    assert_eq!(c.record, record("u", "s"));
}

#[test]
fn registry_credentials_rejects_missing_url() {
    assert_eq!(
        decode_registry_credentials("{\"Username\":\"u\",\"Secret\":\"s\"}"),
        Err(CredError::Format)
    );
}

#[test]
fn list_skips_corrupt_entries() {
    let m = decode_map(
        "{\"https://a\": \"{\\\"Username\\\":\\\"u\\\",\\\"Secret\\\":\\\"s\\\"}\", \"https://b\": \"not-json\"}",
    )
    .unwrap();
    let listing = list_usernames(&m);
    assert_eq!(listing.len(), 1);
    assert_eq!(listing[0].0, "https://a");
    assert_eq!(listing[0].1, "u");
}

#[test]
fn pretty_listing_text() {
    let listing = vec![
        (String::from("https://a"), String::from("u")),
        (String::from("https://b"), String::from("v")),
    ];
    assert_eq!(
        encode_username_map(&listing),
        "{\n  \"https://a\": \"u\",\n  \"https://b\": \"v\"\n}"
    );
    assert_eq!(encode_username_map(&Vec::new()), "{}");
}

#[test]
fn pretty_listing_parses_back_as_object() {
    let listing = vec![(String::from("https://a"), String::from("u"))];
    let text = encode_username_map(&listing);
    let m = decode_map(&text).unwrap();
    assert_eq!(m.len(), 1);
    assert_eq!(m.lookup("https://a").unwrap(), "u");
}
