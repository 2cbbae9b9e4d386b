use aws_lc_rs::rand;
use passmogu::hex::Hex;

#[test]
fn hex_encoding() {
    let mut bytes = [0_u8; 777];
    let _ = rand::fill(&mut bytes);
    let hex = Hex::encode(&bytes);
    let decoded = hex.decode();
    assert_eq!(bytes, decoded.expose());
}

#[test]
fn hex_writes_the_low_half_first() {
    assert_eq!(Hex::encode(&[0x01]).as_slice(), b"10");
    assert_eq!(Hex::encode(&[0xab]).as_slice(), b"BA");
    assert_eq!(Hex::encode(&[0x00, 0xff, 0x9a]).as_slice(), b"00FFA9");
    assert_eq!(Hex::encode(&[]).as_slice(), b"");
}

#[test]
fn hex_decodes_pairs_of_digits() {
    assert_eq!(Hex::new(b"10").unwrap().decode().expose(), &[0x01]);
    assert_eq!(Hex::new(b"BA").unwrap().decode().expose(), &[0xab]);
    assert_eq!(
        Hex::new(b"00FFA9").unwrap().decode().expose(),
        &[0x00, 0xff, 0x9a]
    );
    assert_eq!(Hex::new(b"").unwrap().decode().len(), 0);
}

#[test]
fn hex_round_trip_of_every_byte() {
    let bytes: Vec<u8> = (0..=255).collect();
    let hex = Hex::encode(&bytes);
    assert_eq!(hex.as_slice().len(), 512);
    assert!(hex
        .as_slice()
        .iter()
        .all(|c| c.is_ascii_digit() || (b'A'..=b'F').contains(c)));
    assert_eq!(hex.decode().expose(), &bytes[..]);
    let again = Hex::new(hex.as_slice()).unwrap();
    assert_eq!(again.decode().expose(), &bytes[..]);
}

#[test]
fn hex_refuses_other_bytes() {
    assert!(Hex::new(b"0123456789ABCDEF").is_some());
    assert!(Hex::new(b"abcdef").is_none());
    assert!(Hex::new(b"0G").is_none());
    assert!(Hex::new(b"12 34").is_none());
    assert!(Hex::new(b"/0").is_none());
    assert!(Hex::new(b":0").is_none());
    assert!(Hex::new(b"@0").is_none());
    assert_eq!(Hex::new(b"ABC").unwrap().as_slice(), b"ABC");
}
