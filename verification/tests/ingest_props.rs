use zero::ingest::{ingest, parse_bool, parse_i64, trim_bytes, IngestError, RawField};
use zero::item::Item;

fn bytes(s: &str) -> Vec<u8> {
    s.as_bytes().to_vec()
}

fn field(name: &str, data: &str) -> RawField {
    RawField { name: bytes(name), filename: None, data: bytes(data) }
}

fn seed(id: i64) -> Item {
    Item::new_with_id(id)
}

#[test]
fn empty_content_field_is_a_no_op() {
    let fields = vec![field("c", "")];
    let it = ingest(seed(1), &fields, &bytes("salt"), 1000).unwrap();
    assert!(it.content.is_empty());
    assert!(it.digest.is_empty());
    assert!(it.mimetype.is_empty());
}

#[test]
fn nonempty_content_field_sets_digest_and_mimetype() {
    let fields = vec![field("c", "hello")];
    let it = ingest(seed(1), &fields, &bytes("salt"), 1000).unwrap();
    assert_eq!(it.content, bytes("hello"));
    assert_eq!(it.digest.len(), 43);
    assert!(!it.mimetype.is_empty());
}

#[test]
fn content_then_url_is_rejected() {
    let fields = vec![field("c", "data"), field("u", "http://example.com")];
    let r = ingest(seed(1), &fields, &bytes("salt"), 1000);
    assert!(matches!(r, Err(IngestError::MixedContentAndUrl)));
}

#[test]
fn url_field_trims_whitespace_and_sets_uri_list_type() {
    let fields = vec![field("u", "  http://example.com \n")];
    let it = ingest(seed(1), &fields, &bytes("salt"), 1000).unwrap();
    assert!(it.is_url);
    assert_eq!(it.content, bytes("http://example.com"));
    assert_eq!(it.mimetype, bytes("text/uri-list"));
    assert_eq!(it.digest.len(), 43);
}

#[test]
fn default_label_is_derived_from_id() {
    let fields = vec![field("c", "hello")];
    let it = ingest(seed(1), &fields, &bytes("salt"), 1000).unwrap();
    assert_eq!(it.label, bytes("AQ"));
}

#[test]
fn client_label_is_normalized_with_sigil() {
    let fields = vec![field("label", "foo")];
    let it = ingest(seed(1), &fields, &bytes("salt"), 1000).unwrap();
    assert_eq!(it.label, bytes("~foo"));

    let fields2 = vec![field("label", "~bar")];
    let it2 = ingest(seed(2), &fields2, &bytes("salt"), 1000).unwrap();
    assert_eq!(it2.label, bytes("~bar"));
}

#[test]
fn client_filename_is_kept() {
    let f = RawField { name: bytes("c"), filename: Some(bytes("a.txt")), data: bytes("hi") };
    let it = ingest(seed(1), &vec![f], &bytes("salt"), 1000).unwrap();
    assert_eq!(it.filename, bytes("a.txt"));
}

#[test]
fn synthesized_filename_follows_extension_table() {
    let fields = vec![field("u", "http://example.com")];
    let it = ingest(seed(1), &fields, &bytes("salt"), 1000).unwrap();
    let expected = match mime_guess::get_mime_extensions_str("text/uri-list") {
        Some(exts) => format!("AQ.{}", exts[0]).into_bytes(),
        None => bytes("AQ"),
    };
    assert_eq!(it.filename, expected);
}

#[test]
fn filename_falls_back_to_label_without_sigil() {
    let fields = vec![field("label", "~note")];
    let it = ingest(seed(1), &fields, &bytes("salt"), 1000).unwrap();
    // No content, so no mimetype; the empty type has no known extension.
    assert_eq!(it.filename, bytes("note"));
}

#[test]
fn destruct_and_private_parse_booleans() {
    let fields = vec![field("destruct", "true"), field("private", "false")];
    let it = ingest(seed(1), &fields, &bytes("salt"), 1000).unwrap();
    assert!(it.destruct);
    assert!(!it.private);
}

#[test]
fn empty_boolean_payloads_are_no_ops() {
    let fields = vec![field("destruct", ""), field("private", "")];
    let it = ingest(seed(1), &fields, &bytes("salt"), 1000).unwrap();
    assert!(!it.destruct);
    assert!(!it.private);
}

#[test]
fn bad_boolean_is_rejected() {
    let fields = vec![field("destruct", "xyz")];
    let r = ingest(seed(1), &fields, &bytes("salt"), 1000);
    assert!(matches!(r, Err(IngestError::BadBool)));
}

#[test]
fn sunset_sets_timestamp_in_minutes() {
    let fields = vec![field("sunset", "2")];
    let it = ingest(seed(1), &fields, &bytes("salt"), 1000).unwrap();
    assert_eq!(it.sunset, Some(1000 + 120));
}

#[test]
fn bad_sunset_is_rejected() {
    let fields = vec![field("sunset", "abc")];
    let r = ingest(seed(1), &fields, &bytes("salt"), 1000);
    assert!(matches!(r, Err(IngestError::BadInt)));
}

#[test]
fn overflowing_sunset_is_rejected() {
    let fields = vec![field("sunset", "9223372036854775807")];
    let r = ingest(seed(1), &fields, &bytes("salt"), 1000);
    assert!(matches!(r, Err(IngestError::SunsetOutOfRange)));
}

#[test]
fn unknown_field_is_rejected() {
    let fields = vec![field("zzz", "1")];
    let r = ingest(seed(1), &fields, &bytes("salt"), 1000);
    assert!(matches!(r, Err(IngestError::UnknownField)));
}

#[test]
fn content_field_ignored_on_url_item() {
    let fields = vec![field("u", "http://example.com"), field("c", "blob")];
    let it = ingest(seed(1), &fields, &bytes("salt"), 1000).unwrap();
    assert!(it.is_url);
    assert_eq!(it.content, bytes("http://example.com"));
}

#[test]
fn parse_bool_accepts_exactly_true_and_false() {
    assert_eq!(parse_bool(&bytes("true")), Some(true));
    assert_eq!(parse_bool(&bytes("false")), Some(false));
    assert_eq!(parse_bool(&bytes("True")), None);
    assert_eq!(parse_bool(&bytes("")), None);
}

#[test]
fn parse_i64_handles_signs_and_bounds() {
    assert_eq!(parse_i64(&bytes("42")), Some(42));
    assert_eq!(parse_i64(&bytes("-7")), Some(-7));
    assert_eq!(parse_i64(&bytes("+5")), Some(5));
    assert_eq!(parse_i64(&bytes("")), None);
    assert_eq!(parse_i64(&bytes("12a")), None);
    assert_eq!(parse_i64(&bytes("9223372036854775807")), Some(i64::MAX));
    assert_eq!(parse_i64(&bytes("9223372036854775808")), None);
    assert_eq!(parse_i64(&bytes("-9223372036854775808")), Some(i64::MIN));
    assert_eq!(parse_i64(&bytes("-9223372036854775809")), None);
}

#[test]
fn trim_bytes_strips_ascii_whitespace() {
    assert_eq!(trim_bytes(&bytes("  a b \t\n")), bytes("a b"));
    assert_eq!(trim_bytes(&bytes("   ")), bytes(""));
    assert_eq!(trim_bytes(&bytes("x")), bytes("x"));
}
