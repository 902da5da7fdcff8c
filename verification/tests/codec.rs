use bencode::Bencode;

#[test]
fn decode_string() {
    assert_eq!(
        bencode::decode::decode_string(b"3:cow", 0),
        Ok((Bencode::Bytes(b"cow".to_vec()), 5))
    );
    assert_eq!(
        bencode::decode::decode_string(b"7:piglets", 0),
        Ok((Bencode::Bytes(b"piglets".to_vec()), 9))
    );
}

#[test]
fn decode_integer() {
    assert_eq!(
        bencode::decode::decode_integer(b"i0e", 0),
        Ok((Bencode::Integer(0), 3))
    );
    assert_eq!(
        bencode::decode::decode_integer(b"i-42e", 0),
        Ok((Bencode::Integer(-42), 5))
    );
    assert_eq!(
        bencode::decode::decode_integer(b"i42e", 0),
        Ok((Bencode::Integer(42), 4))
    );
}

#[test]
fn decode_list() {
    assert_eq!(
        bencode::decode::decode_list(b"li0ee", 0),
        Ok((Bencode::List(vec![Bencode::Integer(0)]), 5))
    );
    assert_eq!(
        bencode::decode::decode_list(b"le", 0),
        Ok((Bencode::List(vec![]), 2))
    );
}

#[test]
fn decode_dictionary() {
    assert_eq!(
        bencode::decode::decode_dictionary(b"de", 0),
        Ok((Bencode::Dictionary(vec![]), 2))
    );
    assert_eq!(
        bencode::decode::decode_dictionary(b"d3:cow7:pigletse", 0),
        Ok((
            Bencode::Dictionary(vec![(b"cow".to_vec(), Bencode::Bytes(b"piglets".to_vec()))]),
            16
        ))
    );
}

#[test]
fn encode_string() {
    assert_eq!(
        b"5:hello".to_vec(),
        bencode::encode::encode(&Bencode::Bytes(b"hello".to_vec()))
    )
}

#[test]
fn encode_integer() {
    assert_eq!(
        b"i5e".to_vec(),
        bencode::encode::encode(&Bencode::Integer(5isize))
    );
    assert_eq!(
        b"i-5e".to_vec(),
        bencode::encode::encode(&Bencode::Integer(-5isize))
    )
}

#[test]
fn encode_list() {
    assert_eq!(b"le".to_vec(), bencode::encode::encode(&Bencode::List(vec![])));
    assert_eq!(
        b"li5ee".to_vec(),
        bencode::encode::encode(&Bencode::List(vec![Bencode::Integer(5isize)]))
    );
    assert_eq!(
        b"li5e5:helloe".to_vec(),
        bencode::encode::encode(&Bencode::List(vec![
            Bencode::Integer(5isize),
            Bencode::Bytes(b"hello".to_vec())
        ]))
    )
}

#[test]
fn encode_dictionary() {
    assert_eq!(
        b"de".to_vec(),
        bencode::encode::encode(&Bencode::Dictionary(vec![]))
    );
    let mut single: Vec<(Vec<u8>, Bencode)> = Vec::new();
    bencode::dict_insert(&mut single, b"hello".to_vec(), Bencode::Integer(5isize));
    assert_eq!(
        b"d5:helloi5ee".to_vec(),
        bencode::encode::encode(&Bencode::Dictionary(single))
    );
    // keys shall appear in sorted order in the output, whatever the
    // insertion order was
    let mut several: Vec<(Vec<u8>, Bencode)> = Vec::new();
    bencode::dict_insert(&mut several, b"beta".to_vec(), Bencode::Integer(-1));
    bencode::dict_insert(&mut several, b"hello".to_vec(), Bencode::Integer(5isize));
    bencode::dict_insert(&mut several, b"apple".to_vec(), Bencode::Integer(9isize));
    assert_eq!(
        b"d5:applei9e4:betai-1e5:helloi5ee".to_vec(),
        bencode::encode::encode(&Bencode::Dictionary(several))
    )
}

fn nested_fixture() -> Bencode {
    let mut deeper: Vec<(Vec<u8>, Bencode)> = Vec::new();
    bencode::dict_insert(&mut deeper, b"secret".to_vec(), Bencode::Integer(29));

    let mut info: Vec<(Vec<u8>, Bencode)> = Vec::new();
    bencode::dict_insert(&mut info, b"size".to_vec(), Bencode::Integer(8));
    bencode::dict_insert(
        &mut info,
        b"type".to_vec(),
        Bencode::Bytes(b"torrent".to_vec()),
    );
    bencode::dict_insert(&mut info, b"deeper".to_vec(), Bencode::Dictionary(deeper));

    let mut top: Vec<(Vec<u8>, Bencode)> = Vec::new();
    bencode::dict_insert(&mut top, b"info".to_vec(), Bencode::Dictionary(info));
    Bencode::Dictionary(top)
}

#[test]
fn get_in_owned_macro() {
    let nested = nested_fixture();
    let keys = vec![b"info".to_vec(), b"deeper".to_vec(), b"secret".to_vec()];
    let res = bencode::get_in(&nested, &keys);
    assert_eq!(res, Some(&Bencode::Integer(29)));
}

#[test]
fn get_in_macro() {
    let nested = nested_fixture();
    let keys = vec![b"info".to_vec(), b"deeper".to_vec(), b"secret".to_vec()];
    let res = bencode::get_in(&nested, &keys);
    assert_eq!(res, Some(&Bencode::Integer(29)));
}
