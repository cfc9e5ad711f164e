use openplay::pairing::tlv::{Tlv, TlvType};

// Real pair-setup M1 (transient) captured from HomePod mini "Bedroom".
const M1: &[u8] = &[
    0x00, 0x01, 0x00, // Method = 0
    0x06, 0x01, 0x01, // State = 1
    0x13, 0x04, 0x10, 0x00, 0x00, 0x00, // Flags = 0x10 (transient)
];

#[test]
fn encodes_transient_m1_exactly() {
    let tlv = Tlv::new()
        .put_u8(TlvType::Method, 0)
        .put_u8(TlvType::State, 1)
        .put(TlvType::Flags, &[0x10, 0, 0, 0]);
    assert_eq!(tlv.encode(), M1);
}

#[test]
fn decodes_m1_fields() {
    let tlv = Tlv::decode(M1).expect("decode");
    assert_eq!(tlv.get_u8(TlvType::Method), Some(0));
    assert_eq!(tlv.get_u8(TlvType::State), Some(1));
    assert_eq!(tlv.get(TlvType::Flags), Some(&[0x10, 0, 0, 0][..]));
}

#[test]
fn fragments_and_rejoins_long_values() {
    let big = vec![0xabu8; 384];
    let wire = Tlv::new().put(TlvType::PublicKey, &big).encode();
    // 384 bytes -> fragments of 255 + 129, each with a 2-byte header.
    assert_eq!(wire.len(), 2 + 255 + 2 + 129);
    assert_eq!(wire[1], 255);
    assert_eq!(wire[2 + 255 + 1], 129);
    let back = Tlv::decode(&wire).expect("decode");
    assert_eq!(back.get(TlvType::PublicKey), Some(big.as_slice()));
}

#[test]
fn rejects_truncated_input() {
    assert!(Tlv::decode(&[0x06, 0x04, 0x01]).is_err());
    assert!(Tlv::decode(&[0x06]).is_err());
}

#[test]
fn truncation_errors_name_their_cause() {
    match Tlv::decode(&[0x06]) {
        Err(openplay::Error::Pairing(m)) => assert_eq!(m, "tlv: truncated length"),
        _ => panic!("expected a pairing error"),
    }
    match Tlv::decode(&[0x06, 0x04, 0x01]) {
        Err(openplay::Error::Pairing(m)) => assert_eq!(m, "tlv: truncated value"),
        _ => panic!("expected a pairing error"),
    }
}

#[test]
fn round_trips_a_multi_item_collection() {
    let long = vec![7u8; 510];
    let tlv = Tlv::new()
        .put_u8(TlvType::State, 3)
        .put(TlvType::PublicKey, &long)
        .put(TlvType::Proof, &[])
        .put(TlvType::Salt, &[1, 2, 3]);
    let wire = tlv.encode();
    // 510 bytes -> exactly two full fragments; the empty value is one empty fragment.
    assert_eq!(wire.len(), 3 + (2 + 255) * 2 + 2 + 5);
    let back = Tlv::decode(&wire).expect("decode");
    assert_eq!(back.get_u8(TlvType::State), Some(3));
    assert_eq!(back.get(TlvType::PublicKey), Some(long.as_slice()));
    assert_eq!(back.get(TlvType::Proof), Some(&[][..]));
    assert_eq!(back.get(TlvType::Salt), Some(&[1u8, 2, 3][..]));
    assert_eq!(back.encode(), wire);
}

#[test]
fn adjacent_items_of_one_type_coalesce() {
    let wire = Tlv::new()
        .put(TlvType::State, &[1])
        .put(TlvType::State, &[2])
        .encode();
    let back = Tlv::decode(&wire).expect("decode");
    assert_eq!(back.get(TlvType::State), Some(&[1u8, 2][..]));
    assert_eq!(back.get_u8(TlvType::State), None);
}

#[test]
fn get_returns_the_first_value_of_a_type() {
    let tlv = Tlv::new()
        .put_u8(TlvType::Error, 2)
        .put_u8(TlvType::State, 4)
        .put_u8(TlvType::Error, 6);
    assert_eq!(tlv.error_code(), Some(2));
    assert_eq!(tlv.get(TlvType::Signature), None);
    assert_eq!(TlvType::Flags.code(), 0x13);
    assert_eq!(TlvType::Signature.code(), 0x0a);
}

#[test]
fn fragment_layout_and_length() {
    for (n, frags) in [(0usize, 1usize), (1, 1), (255, 1), (256, 2), (510, 2), (511, 3)] {
        let value = vec![9u8; n];
        let wire = Tlv::new().put(TlvType::PublicKey, &value).encode();
        assert_eq!(wire.len(), n + 2 * frags);
        let mut i = 0;
        let mut k = 0;
        while i < wire.len() {
            assert_eq!(wire[i], 0x03);
            let len = wire[i + 1] as usize;
            if k + 1 < frags {
                assert_eq!(len, 255);
            }
            i += 2 + len;
            k += 1;
        }
        assert_eq!(k, frags);
    }
}
