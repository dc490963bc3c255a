use balanced_ternary::Ternary;
use balanced_ternary::terscii::{TABLE, decode, decode_str, decode_tryte, encode, encode_str, encode_tryte};

#[test]
fn test_known_values() {
    assert_eq!(encode(' ').unwrap().to_dec(), 1);
    assert_eq!(encode('H').unwrap().to_dec(), 75);
    assert_eq!(encode('e').unwrap().to_dec(), 51);
    assert_eq!(encode('l').unwrap().to_dec(), 34);
    assert_eq!(encode('o').unwrap().to_dec(), 61);
    assert_eq!(encode(',').unwrap().to_dec(), 28);
    assert_eq!(encode('W').unwrap().to_dec(), 50);
    assert_eq!(encode('r').unwrap().to_dec(), 8);
    assert_eq!(encode('d').unwrap().to_dec(), 42);
    assert_eq!(encode('!').unwrap().to_dec(), 64);
}

#[test]
fn test_roundtrip_hello_world() {
    let msg: String = "Hello, World!"
        .chars()
        .map(|c| decode(&encode(c).unwrap()).unwrap())
        .collect();
    assert_eq!(msg, "Hello, World!");
}

#[test]
fn test_roundtrip_all_printable() {
    let printable = " -',.;:.!?01234567890ABCDEFGHIJKLMNOPQRSTUVWXYZabcdefghijklmnopqrstuvwxyz_";
    for c in printable.chars() {
        let t = encode(c).unwrap_or_else(|| panic!("encode({c:?}) failed"));
        let c2 = decode(&t).unwrap_or_else(|| panic!("decode failed for {c:?}"));
        assert_eq!(c, c2);
    }
}

#[test]
fn test_decode_out_of_range() {
    assert!(decode(&Ternary::from_dec(-1)).is_none());
    assert!(decode(&Ternary::from_dec(81)).is_none());
    assert!(decode(&Ternary::from_dec(100)).is_none());
}

#[test]
fn test_encode_unknown() {
    assert!(encode('€').is_none());
    assert!(encode('α').is_none());
}

#[test]
fn test_table_length() {
    assert_eq!(TABLE.chars().count(), 81);
}

#[test]
fn test_encode_decode_str() {
    let encoded = encode_str("Hello, World!").unwrap();
    assert_eq!(encoded.len(), 13);
    assert_eq!(decode_str(&encoded).unwrap(), "Hello, World!");
}

#[test]
fn test_encode_str_unknown() {
    assert!(encode_str("Hello €").is_none());
}

#[test]
fn terscii_tryte_round_trip() {
    for c in ['A', 'z', '0', ' ', '_'] {
        let t = encode_tryte(c).unwrap();
        assert_eq!(decode_tryte(t), Some(c));
    }
    assert_eq!(encode_tryte('A').unwrap().to_i64(), 12);
    assert!(encode_tryte('€').is_none());
}
