use prototype::hash::{bytes_to_hex, ObjectKey};

#[test]
fn hex_round_trip() {
    let text = b"d3486ae9136e7856bc42212385ea797094475802";
    let key = ObjectKey::from_hex(text).unwrap();
    assert_eq!(key.bytes[0], 0xd3);
    assert_eq!(key.bytes[19], 0x02);
    assert_eq!(key.to_hex(), text.to_vec());
    assert_eq!(key.to_short(), b"d3486ae9".to_vec());
}

#[test]
fn hex_rejects_bad_text() {
    assert_eq!(ObjectKey::from_hex(b"d3486ae9"), None);
    assert_eq!(ObjectKey::from_hex(b"D3486AE9136E7856BC42212385EA797094475802"), None);
    assert_eq!(ObjectKey::from_hex(b"g3486ae9136e7856bc42212385ea797094475802"), None);
}

#[test]
fn zero_key_and_hex_digits() {
    assert_eq!(ObjectKey::zero().to_hex(), vec![b'0'; 40]);
    assert_eq!(bytes_to_hex(&[0x0f, 0xa0]), b"0fa0".to_vec());
    assert!(ObjectKey::zero().same(&ObjectKey { bytes: vec![0; 20] }));
}

#[test]
fn sha1_of_known_input() {
    let key = ObjectKey::of_bytes(b"abc");
    assert_eq!(key.to_hex(), b"a9993e364706816aba3e25717850c26c9cd0d89d".to_vec());
}
