use credstore::CredError;
use credstore::codec::{CredentialRecord, RegistryCredentials, decode_map, encode_map};
use credstore::entries::SecretMap;
use credstore::store::{erase_credentials, get_credentials, list_usernames, store_credentials};

fn creds(url: &str, u: &str, s: &str) -> RegistryCredentials {
    RegistryCredentials {
        server_url: String::from(url),
        record: CredentialRecord { username: String::from(u), secret: String::from(s) },
    }
}

#[test]
fn store_then_get() {
    let mut m = SecretMap::new();
    store_credentials(&mut m, &creds("https://x", "u", "s"));
    let rec = get_credentials(&m, "https://x").unwrap();
    assert_eq!(rec.username, "u");
    assert_eq!(rec.secret, "s");
}

#[test]
fn erase_removes() {
    let mut m = SecretMap::new();
    store_credentials(&mut m, &creds("https://x", "u", "s"));
    erase_credentials(&mut m, "https://x").unwrap();
    assert_eq!(get_credentials(&m, "https://x"), Err(CredError::NotFound));
    assert_eq!(m.len(), 0);
}

#[test]
fn erase_unknown_fails() {
    let mut m = SecretMap::new();
    assert_eq!(erase_credentials(&mut m, "https://missing"), Err(CredError::NotFound));
    assert_eq!(m.len(), 0);
    assert_eq!(encode_map(&m), "{}");
}

#[test]
fn erase_keeps_other_entries() {
    let mut m = SecretMap::new();
    store_credentials(&mut m, &creds("https://x", "u", "s"));
    store_credentials(&mut m, &creds("https://y", "v", "t"));
    erase_credentials(&mut m, "https://x").unwrap();
    assert_eq!(get_credentials(&m, "https://x"), Err(CredError::NotFound));
    let rec = get_credentials(&m, "https://y").unwrap();
    assert_eq!(rec.username, "v");
    assert_eq!(m.len(), 1);
}

#[test]
fn erase_refuses_foreign_entry() {
    // the entry under the URL is not a credential record, so erase must not
    // delete it, and must report NotFound
    let mut m = decode_map("{\"https://x\":\"not-json\"}").unwrap();
    assert_eq!(erase_credentials(&mut m, "https://x"), Err(CredError::NotFound));
    assert_eq!(m.len(), 1);
    assert_eq!(m.lookup("https://x").unwrap(), "not-json");
}

#[test]
fn store_overwrites() {
    let mut m = SecretMap::new();
    store_credentials(&mut m, &creds("https://x", "first", "s1"));
    store_credentials(&mut m, &creds("https://x", "second", "s2"));
    let rec = get_credentials(&m, "https://x").unwrap();
    assert_eq!(rec.username, "second");
    assert_eq!(rec.secret, "s2");
    assert_eq!(m.len(), 1);
    let listing = list_usernames(&m);
    assert_eq!(listing.len(), 1);
    assert_eq!(listing[0].1, "second");
}

#[test]
fn get_on_empty_map_is_not_found() {
    let m = SecretMap::new();
    assert_eq!(get_credentials(&m, "https://x"), Err(CredError::NotFound));
}

#[test]
fn get_on_corrupt_entry_is_format_error() {
    let m = decode_map("{\"https://x\":\"not-json\"}").unwrap();
    assert_eq!(get_credentials(&m, "https://x"), Err(CredError::Format));
}

#[test]
fn list_is_username_only_in_map_order() {
    let mut m = SecretMap::new();
    store_credentials(&mut m, &creds("https://b", "v", "t"));
    store_credentials(&mut m, &creds("https://a", "u", "s"));
    let listing = list_usernames(&m);
    assert_eq!(listing.len(), 2);
    assert_eq!(listing[0], (String::from("https://b"), String::from("v")));
    assert_eq!(listing[1], (String::from("https://a"), String::from("u")));
}

#[test]
fn list_on_empty_map_is_empty() {
    let m = SecretMap::new();
    assert!(list_usernames(&m).is_empty());
}

#[test]
fn operations_survive_blob_round_trip() {
    let mut m = SecretMap::new();
    store_credentials(&mut m, &creds("https://x", "u", "s"));
    let blob = encode_map(&m);
    let mut m2 = decode_map(&blob).unwrap();
    store_credentials(&mut m2, &creds("https://y", "v", "t"));
    let blob2 = encode_map(&m2);
    let m3 = decode_map(&blob2).unwrap();
    assert_eq!(get_credentials(&m3, "https://x").unwrap().username, "u");
    assert_eq!(get_credentials(&m3, "https://y").unwrap().secret, "t");
}
