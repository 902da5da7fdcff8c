use bencode::Bencode;
use bencode::decode::DecodeError;
use bencode::decode::ErrorKind;

fn kind_of(r: Result<Bencode, DecodeError>) -> ErrorKind {
    r.unwrap_err().kind
}

#[test]
fn round_trip_nested_value() {
    let mut info: Vec<(Vec<u8>, Bencode)> = Vec::new();
    bencode::dict_insert(&mut info, b"length".to_vec(), Bencode::Integer(1048576));
    bencode::dict_insert(
        &mut info,
        b"name".to_vec(),
        Bencode::Bytes(b"release.iso".to_vec()),
    );
    bencode::dict_insert(&mut info, b"piece length".to_vec(), Bencode::Integer(262144));
    let mut top: Vec<(Vec<u8>, Bencode)> = Vec::new();
    bencode::dict_insert(
        &mut top,
        b"announce".to_vec(),
        Bencode::Bytes(b"http://tracker.example/announce".to_vec()),
    );
    bencode::dict_insert(&mut top, b"info".to_vec(), Bencode::Dictionary(info));
    bencode::dict_insert(
        &mut top,
        b"tiers".to_vec(),
        Bencode::List(vec![Bencode::Integer(-3), Bencode::Bytes(vec![0u8, 255u8, 7u8])]),
    );
    let value = Bencode::Dictionary(top);

    let encoded = value.encode();
    let decoded = bencode::decode_all(&encoded).unwrap();
    assert_eq!(decoded, value);
    // re-encoding the decoded tree reproduces the bytes
    assert_eq!(decoded.encode(), encoded);
    // and a second decode/encode pass changes nothing
    let twice = bencode::decode_all(&decoded.encode()).unwrap();
    assert_eq!(twice.encode(), encoded);
}

#[test]
fn canonical_dictionary_ordering() {
    let mut first: Vec<(Vec<u8>, Bencode)> = Vec::new();
    bencode::dict_insert(&mut first, b"zz".to_vec(), Bencode::Integer(1));
    bencode::dict_insert(&mut first, b"aa".to_vec(), Bencode::Integer(2));
    bencode::dict_insert(&mut first, b"mm".to_vec(), Bencode::Integer(3));
    let mut second: Vec<(Vec<u8>, Bencode)> = Vec::new();
    bencode::dict_insert(&mut second, b"mm".to_vec(), Bencode::Integer(3));
    bencode::dict_insert(&mut second, b"zz".to_vec(), Bencode::Integer(1));
    bencode::dict_insert(&mut second, b"aa".to_vec(), Bencode::Integer(2));
    let a = Bencode::Dictionary(first).encode();
    let b = Bencode::Dictionary(second).encode();
    assert_eq!(a, b);
    assert_eq!(a, b"d2:aai2e2:mmi3e2:zzi1ee".to_vec());
}

#[test]
fn duplicate_key_keeps_last_value() {
    let decoded = bencode::decode(b"d1:ai1e1:ai2ee").unwrap();
    let mut expected: Vec<(Vec<u8>, Bencode)> = Vec::new();
    bencode::dict_insert(&mut expected, b"a".to_vec(), Bencode::Integer(2));
    assert_eq!(decoded, Bencode::Dictionary(expected));
}

#[test]
fn unsorted_input_reencodes_sorted() {
    // tolerant decode accepts out-of-order keys and re-sorts them
    let decoded = bencode::decode(b"d1:bi1e1:ai2ee").unwrap();
    assert_eq!(decoded.encode(), b"d1:ai2e1:bi1ee".to_vec());
}

#[test]
fn empty_containers() {
    assert_eq!(bencode::decode(b"le"), Ok(Bencode::List(vec![])));
    assert_eq!(bencode::decode(b"de"), Ok(Bencode::Dictionary(vec![])));
    assert_eq!(bencode::decode(b"0:"), Ok(Bencode::Bytes(vec![])));
}

#[test]
fn integer_boundaries() {
    assert_eq!(bencode::decode(b"i0e"), Ok(Bencode::Integer(0)));
    assert_eq!(bencode::decode(b"i-1e"), Ok(Bencode::Integer(-1)));
    assert_eq!(kind_of(bencode::decode(b"i-0e")), ErrorKind::MalformedInteger);
    assert_eq!(kind_of(bencode::decode(b"i03e")), ErrorKind::MalformedInteger);
    assert_eq!(kind_of(bencode::decode(b"03:abc")), ErrorKind::LeadingZero);
}

#[test]
fn machine_word_extremes_round_trip() {
    let min_text = format!("i{}e", isize::MIN);
    let max_text = format!("i{}e", isize::MAX);
    let min_value = bencode::decode(min_text.as_bytes()).unwrap();
    let max_value = bencode::decode(max_text.as_bytes()).unwrap();
    assert_eq!(min_value, Bencode::Integer(isize::MIN));
    assert_eq!(max_value, Bencode::Integer(isize::MAX));
    assert_eq!(min_value.encode(), min_text.as_bytes().to_vec());
    assert_eq!(max_value.encode(), max_text.as_bytes().to_vec());
}

#[test]
fn integer_overflow_is_rejected() {
    // one past the greatest and the least signed 64-bit values
    assert_eq!(
        kind_of(bencode::decode(b"i9223372036854775808e")),
        ErrorKind::IntegerOverflow
    );
    assert_eq!(
        kind_of(bencode::decode(b"i-9223372036854775809e")),
        ErrorKind::IntegerOverflow
    );
}

#[test]
fn nesting_depth_guard() {
    let mut adversarial: Vec<u8> = Vec::new();
    for _ in 0..4000 {
        adversarial.push(b'l');
    }
    for _ in 0..4000 {
        adversarial.push(b'e');
    }
    assert_eq!(kind_of(bencode::decode(&adversarial)), ErrorKind::NestingTooDeep);

    // the same shape within the budget decodes fine
    let mut shallow: Vec<u8> = Vec::new();
    for _ in 0..500 {
        shallow.push(b'l');
    }
    for _ in 0..500 {
        shallow.push(b'e');
    }
    assert!(bencode::decode(&shallow).is_ok());
}

#[test]
fn configurable_depth_budget() {
    // two nested lists need a budget of two
    let err = bencode::decode_with_depth(b"lleell", 1).unwrap_err();
    assert_eq!(err.kind, ErrorKind::NestingTooDeep);
    assert_eq!(err.offset, 1);
    assert_eq!(
        bencode::decode_with_depth(b"llee", 2),
        Ok((Bencode::List(vec![Bencode::List(vec![])]), 4))
    );
}

#[test]
fn truncated_string_is_rejected() {
    let err = bencode::decode(b"5:abc").unwrap_err();
    assert_eq!(err.kind, ErrorKind::UnexpectedEof);
    assert_eq!(err.offset, 5);
}

#[test]
fn non_string_dictionary_key_is_rejected() {
    let err = bencode::decode(b"di5ei6ee").unwrap_err();
    assert_eq!(err.kind, ErrorKind::NonStringKey);
    assert_eq!(err.offset, 1);
}

#[test]
fn trailing_bytes() {
    // the lenient entry point ignores the remainder, the strict one rejects
    assert_eq!(bencode::decode(b"i5exyz"), Ok(Bencode::Integer(5)));
    assert_eq!(bencode::decode_prefix(b"i5exyz"), Ok((Bencode::Integer(5), 3)));
    let err = bencode::decode_all(b"i5exyz").unwrap_err();
    assert_eq!(err.kind, ErrorKind::TrailingBytes);
    assert_eq!(err.offset, 3);
}

#[test]
fn remaining_error_shapes() {
    assert_eq!(kind_of(bencode::decode(b"")), ErrorKind::UnexpectedEof);
    assert_eq!(kind_of(bencode::decode(b"x")), ErrorKind::UnknownTag);
    assert_eq!(kind_of(bencode::decode(b"3x")), ErrorKind::MalformedLength);
    assert_eq!(kind_of(bencode::decode(b"ie")), ErrorKind::MalformedInteger);
    assert_eq!(kind_of(bencode::decode(b"i-e")), ErrorKind::MalformedInteger);
    assert_eq!(kind_of(bencode::decode(b"i5x")), ErrorKind::MalformedInteger);
    assert_eq!(kind_of(bencode::decode(b"l")), ErrorKind::UnterminatedList);
    assert_eq!(kind_of(bencode::decode(b"li5e")), ErrorKind::UnterminatedList);
    assert_eq!(kind_of(bencode::decode(b"d")), ErrorKind::UnterminatedDictionary);
    // a complete key whose value is missing runs out of input instead
    assert_eq!(kind_of(bencode::decode(b"d3:cow")), ErrorKind::UnexpectedEof);
}

#[test]
fn accessors_unwrap_payloads() {
    let bytes = Bencode::Bytes(b"hello".to_vec());
    assert_eq!(bytes.unwrap_string(), "hello".to_string());
    assert_eq!(bytes.unwrap_bytes(), b"hello".to_vec());

    // multi-byte characters survive the bytes-to-text step
    let accented = Bencode::Bytes("héllo wörld".to_string().into_bytes());
    assert_eq!(accented.unwrap_string(), "héllo wörld".to_string());

    let int = Bencode::Integer(-7);
    assert_eq!(int.unwrap_integer(), -7isize);

    let list = Bencode::List(vec![Bencode::Integer(1)]);
    assert_eq!(list.unwrap_list(), &vec![Bencode::Integer(1)]);

    let mut pairs: Vec<(Vec<u8>, Bencode)> = Vec::new();
    bencode::dict_insert(&mut pairs, b"k".to_vec(), Bencode::Integer(1));
    let dict = Bencode::Dictionary(pairs);
    let mut expected: Vec<(Vec<u8>, Bencode)> = Vec::new();
    bencode::dict_insert(&mut expected, b"k".to_vec(), Bencode::Integer(1));
    assert_eq!(dict.unwrap_dictionary(), &expected);
}

#[test]
fn dictionary_lookup() {
    let mut pairs: Vec<(Vec<u8>, Bencode)> = Vec::new();
    bencode::dict_insert(&mut pairs, b"b".to_vec(), Bencode::Integer(2));
    bencode::dict_insert(&mut pairs, b"a".to_vec(), Bencode::Integer(1));
    assert_eq!(bencode::dict_get(&pairs, &b"a".to_vec()), Some(&Bencode::Integer(1)));
    assert_eq!(bencode::dict_get(&pairs, &b"b".to_vec()), Some(&Bencode::Integer(2)));
    assert_eq!(bencode::dict_get(&pairs, &b"c".to_vec()), None);

    // a missing key or a non-dictionary step ends the path lookup
    let top = Bencode::Dictionary(pairs);
    assert_eq!(
        bencode::get_in(&top, &vec![b"a".to_vec(), b"x".to_vec()]),
        None
    );
    assert_eq!(bencode::get_in(&top, &vec![]), Some(&top));
}

#[test]
fn binary_bytes_survive() {
    let raw = Bencode::Bytes(vec![0u8, 1u8, 2u8, 255u8, 254u8]);
    let encoded = raw.encode();
    assert_eq!(encoded, b"5:\x00\x01\x02\xff\xfe".to_vec());
    assert_eq!(bencode::decode_all(&encoded), Ok(raw));
}
