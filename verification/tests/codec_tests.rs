use kvs::codec::decode;
use kvs::codec::encode;
use kvs::KvError;
use kvs::Op;

#[test]
fn encode_put_exact() {
    assert_eq!(encode(&Op::Put("a".to_string(), "1".to_string())), "S 1 a1");
    assert_eq!(encode(&Op::Put(String::new(), String::new())), "S 0 ");
    assert_eq!(
        encode(&Op::Put("ab cd".to_string(), "x y".to_string())),
        "S 5 ab cdx y"
    );
    assert_eq!(encode(&Op::Put("key".to_string(), "".to_string())), "S 3 key");
}

#[test]
fn encode_rm_and_get_exact() {
    assert_eq!(encode(&Op::Rm("abc".to_string())), "R abc");
    assert_eq!(encode(&Op::Rm(String::new())), "R ");
    assert_eq!(encode(&Op::Get("k".to_string())), "G k");
}

#[test]
fn encode_unicode_counts_chars() {
    // five characters, more than five bytes
    assert_eq!(
        encode(&Op::Put("héllö".to_string(), "v".to_string())),
        "S 5 héllöv"
    );
}

#[test]
fn round_trip_concrete() {
    let records = vec![
        Op::Put("a".to_string(), "1".to_string()),
        Op::Put(String::new(), String::new()),
        Op::Put("key with spaces".to_string(), "value with spaces".to_string()),
        Op::Put("ключ".to_string(), "значение".to_string()),
        Op::Put("0 1 2".to_string(), "3 4".to_string()),
        Op::Rm("gone".to_string()),
        Op::Rm(String::new()),
        Op::Get("asked".to_string()),
    ];
    for r in records {
        let line = encode(&r);
        assert!(!line.contains('\n'));
        assert_eq!(decode(&line).unwrap(), r);
    }
}

#[test]
fn decode_valid_forms() {
    assert_eq!(
        decode("S 1 a1").unwrap(),
        Op::Put("a".to_string(), "1".to_string())
    );
    assert_eq!(decode("R abc").unwrap(), Op::Rm("abc".to_string()));
    assert_eq!(decode("G k").unwrap(), Op::Get("k".to_string()));
    // leading zeros are read as the same length
    assert_eq!(
        decode("S 001 a1").unwrap(),
        Op::Put("a".to_string(), "1".to_string())
    );
}

#[test]
fn decode_malformed() {
    for bad in [
        "",
        "S",
        "R",
        "X 1 a",
        "S1 a",
        "S x a",
        "S 5 ab",
        "S 1",
        "S 12a xyz",
        "Rx",
        "S 99999999999999999999999999 a",
    ] {
        assert_eq!(decode(bad), Err(KvError::MalformedRecordError), "input {bad:?}");
    }
}

#[test]
fn error_messages() {
    assert_eq!(KvError::KeyNotFoundError.message(), "Key not found");
    assert_eq!(
        KvError::InvalidCommandError.message(),
        "Invalid command found at offset for get operation"
    );
    assert_eq!(
        KvError::InvalidKeyError.message(),
        "Invalid key found at offset for get operation"
    );
    assert_eq!(KvError::MalformedRecordError.message(), "Malformed record in log");
}
