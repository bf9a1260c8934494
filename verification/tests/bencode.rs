use torrent_core::bencode::{compare_bytes, decode, BencodeDict, BencodeValue, KeyOrder};

fn bytes(s: &str) -> BencodeValue {
    BencodeValue::Bytes(s.as_bytes().to_vec())
}

#[test]
fn encode_each_kind() {
    assert_eq!(BencodeValue::Int(42).encode(), b"i42e".to_vec());
    assert_eq!(BencodeValue::Int(-7).encode(), b"i-7e".to_vec());
    assert_eq!(BencodeValue::Int(0).encode(), b"i0e".to_vec());
    assert_eq!(BencodeValue::Int(i64::MIN).encode(), b"i-9223372036854775808e".to_vec());
    assert_eq!(bytes("spam").encode(), b"4:spam".to_vec());
    assert_eq!(bytes("").encode(), b"0:".to_vec());
    let list = BencodeValue::List(vec![bytes("spam"), BencodeValue::Int(1)]);
    assert_eq!(list.encode(), b"l4:spami1ee".to_vec());
}

#[test]
fn dict_encodes_keys_in_order() {
    let mut d = BencodeDict::new();
    assert!(d.is_empty());
    assert!(d.insert(b"zeta".to_vec(), BencodeValue::Int(1)).is_none());
    assert!(d.insert(b"alpha".to_vec(), BencodeValue::Int(2)).is_none());
    assert!(d.insert(b"al".to_vec(), BencodeValue::Int(3)).is_none());
    assert_eq!(d.len(), 3);
    let v = BencodeValue::Dict(d);
    assert_eq!(v.encode(), b"d2:ali3e5:alphai2e4:zetai1ee".to_vec());
}

#[test]
fn dict_insert_replaces_and_get_reads_back() {
    let mut d = BencodeDict::new();
    d.insert(b"k".to_vec(), BencodeValue::Int(1));
    let old = d.insert(b"k".to_vec(), BencodeValue::Int(2));
    assert_eq!(old, Some(BencodeValue::Int(1)));
    assert_eq!(d.len(), 1);
    assert_eq!(d.get(b"k"), Some(&BencodeValue::Int(2)));
    assert_eq!(d.get(b"x"), None);
    let (k, v) = d.entry(0);
    assert_eq!(k, b"k");
    assert_eq!(v, &BencodeValue::Int(2));
}

#[test]
fn decode_each_kind() {
    let (v, rest) = decode(b"i-42exyz").unwrap();
    assert_eq!(v, BencodeValue::Int(-42));
    assert_eq!(rest, b"xyz");
    let (v, rest) = decode(b"4:spam").unwrap();
    assert_eq!(v, bytes("spam"));
    assert!(rest.is_empty());
    let (v, _) = decode(b"l4:spami1ee").unwrap();
    assert_eq!(v, BencodeValue::List(vec![bytes("spam"), BencodeValue::Int(1)]));
    let (v, _) = decode(b"le").unwrap();
    assert_eq!(v, BencodeValue::List(vec![]));
}

#[test]
fn decode_dict_sorts_and_replaces() {
    let (v, rest) = decode(b"d1:bi2e1:ai1e1:bi3ee").unwrap();
    assert!(rest.is_empty());
    match &v {
        BencodeValue::Dict(d) => {
            assert_eq!(d.len(), 2);
            assert_eq!(d.get(b"a"), Some(&BencodeValue::Int(1)));
            assert_eq!(d.get(b"b"), Some(&BencodeValue::Int(3)));
        }
        _ => panic!("expected a dict"),
    }
    assert_eq!(v.encode(), b"d1:ai1e1:bi3ee".to_vec());
}

#[test]
fn decode_accepts_what_from_str_accepts() {
    assert_eq!(decode(b"i+5e").unwrap().0, BencodeValue::Int(5));
    assert_eq!(decode(b"i-0e").unwrap().0, BencodeValue::Int(0));
    assert_eq!(decode(b"i007e").unwrap().0, BencodeValue::Int(7));
    assert_eq!(decode(b"i9223372036854775807e").unwrap().0, BencodeValue::Int(i64::MAX));
    assert_eq!(decode(b"i-9223372036854775808e").unwrap().0, BencodeValue::Int(i64::MIN));
    assert_eq!(decode(b"03:abc").unwrap().0, bytes("abc"));
}

#[test]
fn decode_errors() {
    assert_eq!(decode(b"").unwrap_err(), "invalid bencode");
    assert_eq!(decode(b"x").unwrap_err(), "invalid bencode");
    assert_eq!(decode(b"i12").unwrap_err(), "unterminated int");
    assert_eq!(decode(b"i\xffe").unwrap_err(), "bad utf8 in int");
    assert_eq!(decode(b"i12ae").unwrap_err(), "bad int");
    assert_eq!(decode(b"ie").unwrap_err(), "bad int");
    assert_eq!(decode(b"i-e").unwrap_err(), "bad int");
    assert_eq!(decode(b"i9223372036854775808e").unwrap_err(), "bad int");
    assert_eq!(decode(b"12abc").unwrap_err(), "no colon");
    assert_eq!(decode(b"1x:abc").unwrap_err(), "bad length");
    assert_eq!(decode(b"99999999999999999999999:a").unwrap_err(), "bad length");
    assert_eq!(decode(b"5:abc").unwrap_err(), "string too short");
    assert_eq!(decode(b"l4:spam").unwrap_err(), "invalid bencode");
    assert_eq!(decode(b"di1ei2ee").unwrap_err(), "dict key must be bytes");
    assert_eq!(decode(b"d1:a").unwrap_err(), "invalid bencode");
}

#[test]
fn torrent_like_roundtrip() {
    let data: &[u8] = b"d8:announce35:http://tracker.example.org:6969/ann4:infod6:lengthi1048576e4:name8:demo.iso12:piece lengthi262144e6:pieces20:aaaaaaaaaaaaaaaaaaaaee";
    let (parsed, rest) = decode(data).unwrap();
    assert!(rest.is_empty());
    assert_eq!(parsed.encode(), data.to_vec());
    let copy = parsed.clone();
    assert_eq!(copy.encode(), data.to_vec());
}

#[test]
fn encode_into_appends() {
    let mut buf = b"xx".to_vec();
    BencodeValue::Int(3).encode_into(&mut buf);
    assert_eq!(buf, b"xxi3e".to_vec());
}

#[test]
fn compare_bytes_orders_as_vec() {
    assert_eq!(compare_bytes(b"a", b"b"), KeyOrder::Below);
    assert_eq!(compare_bytes(b"ab", b"a"), KeyOrder::Above);
    assert_eq!(compare_bytes(b"", b""), KeyOrder::Equal);
    assert_eq!(compare_bytes(b"abc", b"abc"), KeyOrder::Equal);
    assert_eq!(compare_bytes(b"", b"a"), KeyOrder::Below);
}

#[test]
fn dict_remove_and_contains_key() {
    let mut d = BencodeDict::new();
    d.insert(b"b".to_vec(), BencodeValue::Int(2));
    d.insert(b"a".to_vec(), BencodeValue::Int(1));
    d.insert(b"c".to_vec(), BencodeValue::Int(3));
    assert!(d.contains_key(b"b"));
    assert_eq!(d.remove(b"b"), Some(BencodeValue::Int(2)));
    assert!(!d.contains_key(b"b"));
    assert_eq!(d.remove(b"b"), None);
    assert_eq!(d.len(), 2);
    assert_eq!(d.get(b"a"), Some(&BencodeValue::Int(1)));
    assert_eq!(d.get(b"c"), Some(&BencodeValue::Int(3)));
    assert_eq!(BencodeValue::Dict(d).encode(), b"d1:ai1e1:ci3ee".to_vec());
}

#[test]
fn encoding_decodes_back() {
    let mut d = BencodeDict::new();
    d.insert(b"list".to_vec(), BencodeValue::List(vec![BencodeValue::Int(-3), bytes("x")]));
    d.insert(b"empty".to_vec(), bytes(""));
    let v = BencodeValue::Dict(d);
    let mut data = v.encode();
    data.extend_from_slice(b"tail");
    let (back, rest) = decode(&data).unwrap();
    assert_eq!(back, v);
    assert_eq!(rest, b"tail");
}
