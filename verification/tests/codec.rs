use crible::encoding::{Encoder, Error};
use crible::index::Index;

fn test_index() -> Index {
    let mut index = Index::new();
    index.set_many("foo", &[1, 2, 3, 4, 9]);
    index.set_many("bar", &[1, 3, 5, 6, 7]);
    index.set_many("baz", &[4, 6, 8, 9]);
    index
}

const TEST_JSON_ENCODED: &str = "\
{\"property\":\"bar\",\"values\":[1,3,5,6,7]}
{\"property\":\"baz\",\"values\":[4,6,8,9]}
{\"property\":\"foo\",\"values\":[1,2,3,4,9]}
";

#[test]
fn test_ndjson_decode_empty() {
    let index = Encoder::Json.decode("".as_bytes()).unwrap();
    assert!(index.is_empty());
}

#[test]
fn test_ndjson_encode_empty() {
    let index = Index::new();
    let out = Encoder::Json.encode(&index).unwrap();
    assert_eq!(std::str::from_utf8(&out).unwrap(), "");
}

#[test]
fn test_ndjson_encode() {
    let index = test_index();
    let out = Encoder::Json.encode(&index).unwrap();
    assert_eq!(std::str::from_utf8(&out).unwrap(), TEST_JSON_ENCODED);
}

#[test]
fn test_ndjson_decode() {
    let index = Encoder::Json.decode(TEST_JSON_ENCODED.as_bytes()).unwrap();
    assert!(index.eq_index(&test_index()));

    let out = Encoder::Json.encode(&index).unwrap();
    assert_eq!(std::str::from_utf8(&out).unwrap(), TEST_JSON_ENCODED);
}

#[test]
fn test_bincode_encode_decode_loop_empty() {
    let index = Index::new();
    let out = Encoder::Bin.encode(&index).unwrap();
    let decoded = Encoder::Bin.decode(out.as_slice()).unwrap();
    assert!(index.eq_index(&decoded));
}

#[test]
fn test_bincode_encode_decode_loop() {
    let index = test_index();
    let out = Encoder::Bin.encode(&index).unwrap();
    let decoded = Encoder::Bin.decode(out.as_slice()).unwrap();
    assert!(index.eq_index(&decoded));
}

#[test]
fn ndjson_round_trip_many_values() {
    let mut index = Index::new();
    index.set_many("a", &[0, 1, 7, 100, 4096, u32::MAX]);
    index.set_many("b-2.c/d:e_f", &[42]);
    index.set_many("empty", &[]);
    let out = Encoder::Json.encode(&index).unwrap();
    let decoded = Encoder::Json.decode(out.as_slice()).unwrap();
    assert!(index.eq_index(&decoded));
}

#[test]
fn ndjson_decode_skips_empty_lines() {
    let text = "\n{\"property\":\"a\",\"values\":[1]}\n\n{\"property\":\"b\",\"values\":[]}\n\n";
    let index = Encoder::Json.decode(text.as_bytes()).unwrap();
    let mut expected = Index::new();
    expected.set_many("a", &[1]);
    expected.set_many("b", &[]);
    assert!(index.eq_index(&expected));
}

#[test]
fn ndjson_decode_accepts_swapped_keys_and_whitespace() {
    let text = "{ \"values\" : [ 1 , 2 ] , \"property\" : \"a\" }\n";
    let index = Encoder::Json.decode(text.as_bytes()).unwrap();
    let mut expected = Index::new();
    expected.set_many("a", &[1, 2]);
    assert!(index.eq_index(&expected));
}

#[test]
fn ndjson_decode_reads_escaped_names() {
    // "\u0061b" spells "ab"; the parser must decode the escape, not hand
    // the raw bytes through.
    let text = "{\"property\":\"\\u0061b\",\"values\":[5]}\n";
    let index = Encoder::Json.decode(text.as_bytes()).unwrap();
    let mut expected = Index::new();
    expected.set_many("ab", &[5]);
    assert!(index.eq_index(&expected));
}

#[test]
fn ndjson_decode_duplicate_property() {
    let text = "{\"property\":\"a\",\"values\":[1]}\n{\"property\":\"a\",\"values\":[2]}\n";
    match Encoder::Json.decode(text.as_bytes()) {
        Err(Error::DuplicateProperty(name)) => assert_eq!(name, "a"),
        other => panic!("expected a duplicate-property failure, got {:?}", other.is_ok()),
    }
}

#[test]
fn ndjson_decode_invalid_property() {
    let text = "{\"property\":\"4foo\",\"values\":[1]}\n";
    match Encoder::Json.decode(text.as_bytes()) {
        Err(Error::InvalidProperty(name)) => assert_eq!(name, "4foo"),
        other => panic!("expected an invalid-property failure, got {:?}", other.is_ok()),
    }
}

#[test]
fn ndjson_decode_rejects_garbage() {
    assert!(matches!(Encoder::Json.decode(b"not json\n"), Err(Error::Json)));
    assert!(matches!(Encoder::Json.decode(b"{\"property\":\"a\"}\n"), Err(Error::Json)));
    assert!(matches!(
        Encoder::Json.decode(b"{\"property\":\"a\",\"values\":[01]}\n"),
        Err(Error::Json)
    ));
    assert!(matches!(
        Encoder::Json.decode(b"{\"property\":\"a\",\"values\":[4294967296]}\n"),
        Err(Error::Json)
    ));
}

#[test]
fn bincode_decode_rejects_garbage() {
    assert!(matches!(Encoder::Bin.decode(&[0xFF]), Err(Error::Bincode)));
}

#[test]
fn bincode_decode_invalid_bitmap() {
    // A container of one pair whose payload is not a serialized bitmap.
    let frames: Vec<(String, Vec<u8>)> = vec![("a".to_owned(), vec![3u8])];
    let bytes = bincode::serialize(&frames).unwrap();
    match Encoder::Bin.decode(&bytes) {
        Err(Error::InvalidBitmap(name)) => assert_eq!(name, "a"),
        other => panic!("expected an invalid-bitmap failure, got {:?}", other.is_ok()),
    }
}

#[test]
fn encoder_labels() {
    assert_eq!(Encoder::parse_label(""), Ok(Encoder::Bin));
    assert_eq!(Encoder::parse_label("bin"), Ok(Encoder::Bin));
    assert_eq!(Encoder::parse_label("crible"), Ok(Encoder::Bin));
    assert_eq!(Encoder::parse_label("json"), Ok(Encoder::Json));
    assert_eq!(Encoder::parse_label("ndjson"), Ok(Encoder::Json));
    assert_eq!(Encoder::parse_label("ljson"), Ok(Encoder::Json));
    match Encoder::parse_label("yaml") {
        Err(Error::UnknownEncoder(label)) => assert_eq!(label, "yaml"),
        other => panic!("expected an unknown-encoder failure, got {:?}", other.is_ok()),
    }
}
