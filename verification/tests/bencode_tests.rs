use torrent_core::bencode::{
    bencode_ending_index, decode_bencoded_value, decode_value, dict_get, encode, BencodeErrorKind,
    BencodeValue,
};

fn bs(s: &[u8]) -> BencodeValue {
    BencodeValue::ByteString(s.to_vec())
}

#[test]
fn decodes_byte_string_literal() {
    let (v, end) = decode_bencoded_value(b"5:hello").unwrap();
    assert_eq!(v, bs(b"hello"));
    assert_eq!(end, 7);
}

#[test]
fn decodes_integer_literal() {
    let (v, end) = decode_bencoded_value(b"i52e").unwrap();
    assert_eq!(v, BencodeValue::Integer(52));
    assert_eq!(end, 4);
}

#[test]
fn decodes_negative_integer() {
    let (v, _) = decode_bencoded_value(b"i-52e").unwrap();
    assert_eq!(v, BencodeValue::Integer(-52));
}

#[test]
fn decodes_list_literal() {
    let (v, end) = decode_bencoded_value(b"l5:helloi52ee").unwrap();
    assert_eq!(v, BencodeValue::List(vec![bs(b"hello"), BencodeValue::Integer(52)]));
    assert_eq!(end, 13);
}

#[test]
fn decodes_dict_literal() {
    let (v, _) = decode_bencoded_value(b"d3:foo3:bar5:helloi52ee").unwrap();
    let expected = BencodeValue::Dict(vec![
        (b"foo".to_vec(), bs(b"bar")),
        (b"hello".to_vec(), BencodeValue::Integer(52)),
    ]);
    assert_eq!(v, expected);
}

#[test]
fn rejects_blank_integer_body() {
    let e = decode_bencoded_value(b"i e").unwrap_err();
    assert_eq!(e.kind, BencodeErrorKind::UnterminatedInteger);
    assert_eq!(e.offset, 1);
}

#[test]
fn rejects_dict_key_without_value() {
    assert!(decode_bencoded_value(b"d3:fooe").is_err());
}

#[test]
fn rejects_non_string_dict_key() {
    let e = decode_bencoded_value(b"di1e3:bare").unwrap_err();
    assert_eq!(e.kind, BencodeErrorKind::NonStringDictKey);
    assert_eq!(e.offset, 1);
}

#[test]
fn accepts_dict_of_one_full_pair() {
    // `d3:foo3:bare` is one key and one value followed by the closing
    // marker, so it is a grammatical dictionary.
    let (v, _) = decode_bencoded_value(b"d3:foo3:bare").unwrap();
    assert_eq!(v, BencodeValue::Dict(vec![(b"foo".to_vec(), bs(b"bar"))]));
}

#[test]
fn rejects_unterminated_list() {
    let e = decode_bencoded_value(b"l5:hello").unwrap_err();
    assert_eq!(e.kind, BencodeErrorKind::UnterminatedContainer);
    assert_eq!(e.offset, 8);
}

#[test]
fn rejects_truncated_string() {
    let e = decode_bencoded_value(b"5:hel").unwrap_err();
    assert_eq!(e.kind, BencodeErrorKind::Truncated);
    assert_eq!(e.offset, 0);
}

#[test]
fn rejects_bad_length_prefix() {
    let e = decode_bencoded_value(b"5x:hello").unwrap_err();
    assert_eq!(e.kind, BencodeErrorKind::BadLengthPrefix);
    assert_eq!(e.offset, 1);
}

#[test]
fn rejects_leading_zero_integer() {
    assert!(decode_bencoded_value(b"i03e").is_err());
    assert!(decode_bencoded_value(b"i-0e").is_err());
}

#[test]
fn rejects_integer_overflow() {
    let e = decode_bencoded_value(b"i9223372036854775808e").unwrap_err();
    assert_eq!(e.kind, BencodeErrorKind::IntegerOverflow);
    assert_eq!(e.offset, 1);
    let (v, _) = decode_bencoded_value(b"i9223372036854775807e").unwrap();
    assert_eq!(v, BencodeValue::Integer(i64::MAX));
    let (v, _) = decode_bencoded_value(b"i-9223372036854775808e").unwrap();
    assert_eq!(v, BencodeValue::Integer(i64::MIN));
}

#[test]
fn rejects_unknown_prefix() {
    let e = decode_bencoded_value(b"x").unwrap_err();
    assert_eq!(e.kind, BencodeErrorKind::InvalidPrefix);
    assert_eq!(e.offset, 0);
}

#[test]
fn ending_index_of_literals() {
    assert_eq!(bencode_ending_index(b"5:hello").unwrap(), 7);
    assert_eq!(bencode_ending_index(b"l5:helloi52ee").unwrap(), 13);
    assert_eq!(bencode_ending_index(b"i52etrailing").unwrap(), 4);
    assert!(bencode_ending_index(b"i").is_err());
}

#[test]
fn span_treats_string_payload_as_opaque() {
    // The payload holds `e` and `i` bytes; the span must not scan into it.
    assert_eq!(bencode_ending_index(b"l4:eieei3ee").unwrap(), 11);
}

#[test]
fn encodes_integers() {
    assert_eq!(encode(&BencodeValue::Integer(52)), b"i52e".to_vec());
    assert_eq!(encode(&BencodeValue::Integer(-42)), b"i-42e".to_vec());
    assert_eq!(encode(&BencodeValue::Integer(0)), b"i0e".to_vec());
    assert_eq!(encode(&BencodeValue::Integer(i64::MIN)), b"i-9223372036854775808e".to_vec());
}

#[test]
fn encodes_dict_keys_in_lexicographic_order_regardless_of_insertion_order() {
    let unsorted = BencodeValue::Dict(vec![
        (b"b".to_vec(), BencodeValue::Integer(1)),
        (b"a".to_vec(), BencodeValue::Integer(2)),
    ]);
    assert_eq!(encode(&unsorted), b"d1:ai2e1:bi1ee".to_vec());
    let sorted = BencodeValue::Dict(vec![
        (b"a".to_vec(), BencodeValue::Integer(2)),
        (b"b".to_vec(), BencodeValue::Integer(1)),
    ]);
    assert_eq!(encode(&sorted), b"d1:ai2e1:bi1ee".to_vec());
}

#[test]
fn round_trips_nested_value() {
    let v = BencodeValue::Dict(vec![
        (
            b"a".to_vec(),
            BencodeValue::List(vec![BencodeValue::Integer(-42), bs(b"xyz")]),
        ),
        (
            b"b".to_vec(),
            BencodeValue::Dict(vec![(b"k".to_vec(), BencodeValue::Integer(7))]),
        ),
    ]);
    let bytes = encode(&v);
    let (back, end) = decode_value(&bytes, 0).unwrap();
    assert_eq!(end, bytes.len());
    assert_eq!(back, v);
}

#[test]
fn round_trips_every_leaf_kind() {
    for v in [
        BencodeValue::Integer(0),
        BencodeValue::Integer(-1),
        bs(b""),
        bs(b"spam"),
        BencodeValue::List(vec![]),
        BencodeValue::Dict(vec![]),
    ] {
        let bytes = encode(&v);
        let (back, end) = decode_value(&bytes, 0).unwrap();
        assert_eq!(end, bytes.len());
        assert_eq!(back, v);
    }
}

#[test]
fn decode_starts_at_cursor() {
    let (v, end) = decode_value(b"i1ei2e", 3).unwrap();
    assert_eq!(v, BencodeValue::Integer(2));
    assert_eq!(end, 6);
}

#[test]
fn dict_get_finds_first_occurrence() {
    let pairs = vec![
        (b"foo".to_vec(), BencodeValue::Integer(1)),
        (b"bar".to_vec(), BencodeValue::Integer(2)),
    ];
    assert_eq!(dict_get(&pairs, b"bar"), Some(&BencodeValue::Integer(2)));
    assert_eq!(dict_get(&pairs, b"baz"), None);
}
