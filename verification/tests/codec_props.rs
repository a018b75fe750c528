use zero::codec::{digest_of, label_of};

fn bytes(s: &str) -> Vec<u8> {
    s.as_bytes().to_vec()
}

#[test]
fn digest_is_deterministic() {
    let b = bytes("hello world");
    let s = bytes("pepper");
    let d1 = digest_of(&b, &s);
    let d2 = digest_of(&b, &s);
    assert_eq!(d1, d2);
    assert_eq!(d1.len(), 43);
}

#[test]
fn digest_matches_sha256_of_content_and_salt() {
    let d = digest_of(&bytes("hello"), &bytes("salt"));
    let expected = data_encoding::BASE64URL_NOPAD
        .encode(ring::digest::digest(&ring::digest::SHA256, b"hellosalt").as_ref());
    assert_eq!(d, expected.into_bytes());
}

#[test]
fn digest_changes_when_one_byte_changes() {
    let s = bytes("pepper");
    let d1 = digest_of(&bytes("hello"), &s);
    let d2 = digest_of(&bytes("hellp"), &s);
    assert_ne!(d1, d2);
}

#[test]
fn digest_depends_on_salt() {
    let b = bytes("hello");
    let d1 = digest_of(&b, &bytes("salt-a"));
    let d2 = digest_of(&b, &bytes("salt-b"));
    assert_ne!(d1, d2);
}

#[test]
fn label_of_small_ids() {
    assert_eq!(label_of(1), bytes("AQ"));
    assert_eq!(label_of(255), bytes("_w"));
    assert_eq!(label_of(256), bytes("AQA"));
}

#[test]
fn labels_are_nonempty_and_url_safe() {
    let ids: [i64; 6] = [1, 2, 63, 64, 4095, 72057594037927935];
    for id in ids {
        let l = label_of(id);
        assert!(!l.is_empty());
        for c in &l {
            let ok = c.is_ascii_alphanumeric() || *c == b'-' || *c == b'_';
            assert!(ok);
        }
    }
}

#[test]
fn distinct_ids_give_distinct_labels() {
    let ids: [i64; 7] = [1, 2, 255, 256, 257, 65535, 65536];
    let labels: Vec<Vec<u8>> = ids.iter().map(|id| label_of(*id)).collect();
    for i in 0..labels.len() {
        for j in 0..labels.len() {
            if i != j {
                assert_ne!(labels[i], labels[j]);
            }
        }
    }
}

#[test]
fn label_matches_reference_encoding() {
    // id 0x0102 has the minimal big-endian bytes [0x01, 0x02].
    let expected = data_encoding::BASE64URL_NOPAD.encode(&[0x01, 0x02]);
    assert_eq!(label_of(0x0102), expected.into_bytes());
}
