use xtask_engine::change::{canonical_order, hash_contents, to_decimal};
use xtask_engine::state::State;

fn framed(bytes: &[u8]) -> Vec<u8> {
    let mut out = Vec::new();
    for chunk in bytes.chunks(1024) {
        out.extend_from_slice(&(chunk.len() as u64).to_le_bytes());
        out.extend_from_slice(chunk);
    }
    out
}

#[test]
fn hash_streams_length_prefixed_blocks() {
    let a = vec![7u8; 2500];
    let b = b"hello".to_vec();
    let mut stream = framed(&a);
    stream.extend(framed(&b));
    let expected = xxhash_rust::xxh3::xxh3_64(&stream);
    assert_eq!(hash_contents(&vec![a, b]), expected);
    assert_eq!(hash_contents(&vec![]), xxhash_rust::xxh3::xxh3_64(&[]));
}

#[test]
fn single_file_scenario() {
    let mut st = State::new();
    let v1 = vec![b"v1".to_vec()];
    assert!(st.changed("K", &v1));
    let recorded = st.get("K").unwrap().to_string();
    assert_eq!(recorded, hash_contents(&v1).to_string());
    assert!(!st.changed("K", &v1));
    let v2 = vec![b"v2".to_vec()];
    assert!(st.changed("K", &v2));
    assert!(!st.changed("K", &v2));
}

#[test]
fn unchanged_contents_stay_unchanged() {
    let mut st = State::new();
    let files = vec![b"abc".to_vec(), vec![0u8; 3000]];
    assert!(st.changed("H", &files));
    // same bytes read again (as after touching the files)
    let again = vec![b"abc".to_vec(), vec![0u8; 3000]];
    assert!(!st.changed("H", &again));
}

#[test]
fn appending_a_byte_is_a_change() {
    let mut st = State::new();
    let files = vec![b"abc".to_vec(), b"def".to_vec()];
    assert!(st.changed("H", &files));
    let appended = vec![b"abc".to_vec(), b"defg".to_vec()];
    assert!(st.changed("H", &appended));
}

#[test]
fn root_order_does_not_matter() {
    let one = vec!["b/x".to_string(), "a".to_string(), "b/x".to_string(), "c".to_string()];
    let two = vec!["c".to_string(), "b/x".to_string(), "a".to_string()];
    let first = canonical_order(&one);
    assert_eq!(first, vec!["a".to_string(), "b/x".to_string(), "c".to_string()]);
    assert_eq!(canonical_order(&two), first);
    assert!(canonical_order(&vec![]).is_empty());
}

#[test]
fn canonical_order_is_by_bytes() {
    let paths = vec!["é".to_string(), "z".to_string(), "Z".to_string(), "a/b".to_string(), "a".to_string()];
    assert_eq!(
        canonical_order(&paths),
        vec!["Z".to_string(), "a".to_string(), "a/b".to_string(), "z".to_string(), "é".to_string()]
    );
}

#[test]
fn decimal_form_of_hashes() {
    assert_eq!(to_decimal(0), "0");
    assert_eq!(to_decimal(7), "7");
    assert_eq!(to_decimal(1024), "1024");
    assert_eq!(to_decimal(u64::MAX), "18446744073709551615");
}

#[test]
fn hash_check_against_recorded_value() {
    let mut st = State::new();
    st.set("K", "5");
    assert!(!st.did_hash_change("K", 5));
    assert!(st.did_hash_change("K", 6));
    assert_eq!(st.get("K"), Some("6"));
}
