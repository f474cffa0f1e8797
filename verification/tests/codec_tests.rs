use icmp_echo::{checksum, encode, patch_checksum, Error, Response};

fn known_packet() -> Vec<u8> {
    vec![
        0x08, 0x00, 0x00, 0x00, 0x12, 0x34, 0x00, 0x01, 0x00, 0x00, 0x00, 0x00, 0x00, 0x00, 0x00,
        0x00,
    ]
}

#[test]
fn checksum_known_value() {
    // RFC 1071 over 08 00 [skip] 12 34 00 01 and four zero words:
    // 0x0800 + 0x1234 + 0x0001 = 0x1A35, complement 0xE5CA.
    assert_eq!(checksum(&known_packet()), 0xE5CA);
}

#[test]
fn checksum_skips_checksum_word() {
    let mut with_field = known_packet();
    with_field[2] = 0xE5;
    with_field[3] = 0xCA;
    assert_eq!(checksum(&with_field), checksum(&known_packet()));
}

#[test]
fn checksum_ignores_trailing_odd_byte() {
    let mut odd = known_packet();
    odd.push(0xFF);
    assert_eq!(checksum(&odd), checksum(&known_packet()));
}

#[test]
fn checksum_empty_buffer() {
    assert_eq!(checksum(&[]), 0xFFFF);
}

#[test]
fn checksum_folds_carries() {
    // Two words of 0xFFFF (words 0 and 2; word 1 is skipped): the sum
    // 0x1FFFE folds to 0xFFFF, whose complement is 0.
    let buf = vec![0xFF, 0xFF, 0x00, 0x00, 0xFF, 0xFF];
    assert_eq!(checksum(&buf), 0x0000);
}

#[test]
fn patched_packet_sums_to_all_ones() {
    // Independent RFC 1071 reference: once the computed checksum is
    // patched in, the one's-complement sum over every word is all ones.
    let mut v = encode(8, 0x1234, 1, &[0u8; 8]);
    let c = checksum(&v);
    patch_checksum(&mut v, c);
    let mut sum: u32 = 0;
    for ch in v.chunks(2) {
        if ch.len() == 2 {
            sum += u16::from_be_bytes([ch[0], ch[1]]) as u32;
        }
    }
    while sum >> 16 != 0 {
        sum = (sum >> 16) + (sum & 0xFFFF);
    }
    assert_eq!(sum, 0xFFFF);
}

#[test]
fn encode_layout() {
    let payload = [0xAA, 0xBB, 0xCC];
    let v = encode(8, 0x1234, 0x5678, &payload);
    assert_eq!(v.len(), 11);
    assert_eq!(&v[..8], &[0x08, 0x00, 0x00, 0x00, 0x12, 0x34, 0x56, 0x78]);
    assert_eq!(&v[8..], &payload);
}

#[test]
fn encode_decode_round_trip() {
    let payload = [1, 2, 3, 4, 5];
    let mut v = encode(8, 0xBEEF, 0x0102, &payload);
    let c = checksum(&v);
    patch_checksum(&mut v, c);
    let r = Response::decode(&v).unwrap();
    assert_eq!(r.kind(), 8);
    assert_eq!(r.code(), 0);
    assert_eq!(r.checksum(), c);
    assert_eq!(r.ident(), 0xBEEF);
    assert_eq!(r.sequence(), 0x0102);
    assert_eq!(r.data(), &payload);
    assert_eq!(r.len(), 13);
}

#[test]
fn encode_decode_empty_payload() {
    let mut v = encode(0, 0, 0, &[]);
    let c = checksum(&v);
    patch_checksum(&mut v, c);
    let r = Response::decode(&v).unwrap();
    assert_eq!(r.kind(), 0);
    assert_eq!(r.ident(), 0);
    assert_eq!(r.sequence(), 0);
    assert_eq!(r.data(), &[] as &[u8]);
    assert_eq!(r.len(), 8);
}

#[test]
fn decode_rejects_short_buffer() {
    let seven = [0x08, 0x00, 0x00, 0x00, 0x12, 0x34, 0x00];
    assert!(matches!(Response::decode(&seven), Err(Error::MalformedInput)));
    assert!(matches!(Response::decode(&[]), Err(Error::MalformedInput)));
    assert!(matches!(Response::decode(&[0x08]), Err(Error::MalformedInput)));
}

#[test]
fn decode_accepts_exact_header() {
    let eight = [0x00, 0x00, 0xE5, 0xCA, 0x12, 0x34, 0x00, 0x01];
    let r = Response::decode(&eight).unwrap();
    assert_eq!(r.kind(), 0);
    assert_eq!(r.code(), 0);
    assert_eq!(r.checksum(), 0xE5CA);
    assert_eq!(r.ident(), 0x1234);
    assert_eq!(r.sequence(), 0x0001);
    assert!(r.data().is_empty());
}
