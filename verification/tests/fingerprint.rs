use requiem_core::fingerprint::fingerprint;
use requiem_core::requirement::{uuid_to_string, Requirement};
use sha2::Digest;

fn encoded(title: &str, body: &str, tags: &[&str]) -> Vec<u8> {
    let mut bytes = Vec::new();
    for text in [title, body] {
        bytes.extend_from_slice(&(text.len() as u64).to_le_bytes());
        bytes.extend_from_slice(text.as_bytes());
    }
    bytes.extend_from_slice(&(tags.len() as u64).to_le_bytes());
    for tag in tags {
        bytes.extend_from_slice(&(tag.len() as u64).to_le_bytes());
        bytes.extend_from_slice(tag.as_bytes());
    }
    bytes
}

fn hex(bytes: &[u8]) -> String {
    bytes.iter().map(|b| format!("{b:02x}")).collect()
}

#[test]
fn fingerprint_is_sha256_of_the_encoded_content() {
    let tags = vec!["a".to_string(), "bc".to_string()];
    let expected = hex(&sha2::Sha256::digest(encoded("Title", "Body", &["a", "bc"])));
    assert_eq!(fingerprint("Title", "Body", &tags), expected);
    assert_eq!(expected.len(), 64);
}

#[test]
fn fingerprint_changes_with_content() {
    let none: Vec<String> = Vec::new();
    assert_ne!(fingerprint("A", "", &none), fingerprint("B", "", &none));
    assert_ne!(fingerprint("A", "x", &none), fingerprint("A", "", &none));
    assert_eq!(fingerprint("A", "x", &none), fingerprint("A", "x", &none));
}

#[test]
fn requirement_fingerprint_uses_title_body_and_tags() {
    let req = Requirement::new("USR-001".parse().unwrap(), "T".to_string(), "B".to_string());
    assert_eq!(req.fingerprint(), fingerprint("T", "B", &[]));
}

#[test]
fn uuid_text_is_hyphenated_lowercase_hex() {
    let u = uuid::Uuid::parse_str("12b3f5c5-b1a8-4aa8-a882-20ff1c2aab53").unwrap();
    assert_eq!(uuid_to_string(u.as_u128()), "12b3f5c5-b1a8-4aa8-a882-20ff1c2aab53");
}

#[test]
fn new_requirements_get_distinct_uuids() {
    let a = Requirement::new("USR-001".parse().unwrap(), String::new(), String::new());
    let b = Requirement::new("USR-001".parse().unwrap(), String::new(), String::new());
    assert_ne!(a.uuid(), b.uuid());
}
