use icmp_echo::{checksum, Error, Icmp, Version, DEFDATALEN};

fn reply_bytes(ident: u16, seq: u16, payload: &[u8]) -> Vec<u8> {
    let mut v = vec![0x00, 0x00, 0x00, 0x00];
    v.extend_from_slice(&ident.to_be_bytes());
    v.extend_from_slice(&seq.to_be_bytes());
    v.extend_from_slice(payload);
    v
}

fn ipv4_datagram(header_words: u8, icmp: &[u8]) -> Vec<u8> {
    let mut v = vec![0u8; 4 * header_words as usize];
    v[0] = 0x40 | header_words;
    v.extend_from_slice(icmp);
    v
}

#[test]
fn new_v4_defaults() {
    let s = Icmp::new(Version::V4, 0x4242, None).unwrap();
    assert_eq!(s.serialize_len(), 8 + DEFDATALEN);
    assert_eq!(s.data(), &[0u8; DEFDATALEN]);
}

#[test]
fn new_v4_custom_length() {
    let s = Icmp::new(Version::V4, 7, Some(4)).unwrap();
    assert_eq!(s.serialize_len(), 12);
    assert_eq!(s.data(), &[0, 0, 0, 0]);
}

#[test]
fn new_v6_fails_fast() {
    assert!(matches!(Icmp::new(Version::V6, 1, None), Err(Error::Resolution)));
    assert!(matches!(Icmp::new(Version::V6, 1, Some(8)), Err(Error::Resolution)));
}

#[test]
fn packet_layout_and_checksum() {
    let s = Icmp::new(Version::V4, 0x1234, Some(8)).unwrap();
    let p = s.make_packet();
    assert_eq!(p.len(), 16);
    assert_eq!(p[0], 8);
    assert_eq!(p[1], 0);
    assert_eq!(&p[4..6], &[0x12, 0x34]);
    assert_eq!(&p[6..8], &[0x00, 0x00]);
    // The patched field holds the checksum of the zero-checksum bytes, and
    // recomputing under the skip rule reproduces it.
    // 0x0800 + 0x1234 + 0x0000 = 0x1A34, complement 0xE5CB.
    assert_eq!(u16::from_be_bytes([p[2], p[3]]), 0xE5CB);
    assert_eq!(checksum(&p), 0xE5CB);
}

#[test]
fn sequence_advances_per_send() {
    let mut s = Icmp::new(Version::V4, 9, Some(0)).unwrap();
    s.advance();
    s.advance();
    let p = s.make_packet();
    assert_eq!(u16::from_be_bytes([p[6], p[7]]), 2);
}

#[test]
fn sequence_wraps_to_zero() {
    let mut s = Icmp::new(Version::V4, 9, Some(0)).unwrap();
    for _ in 0..65535 {
        s.advance();
    }
    let p = s.make_packet();
    assert_eq!(u16::from_be_bytes([p[6], p[7]]), 65535);
    s.advance();
    let p = s.make_packet();
    assert_eq!(u16::from_be_bytes([p[6], p[7]]), 0);
}

#[test]
fn write_data_shows_in_packet() {
    let mut s = Icmp::new(Version::V4, 1, Some(6)).unwrap();
    s.write_data(2, &[0xDE, 0xAD]);
    assert_eq!(s.data(), &[0, 0, 0xDE, 0xAD, 0, 0]);
    let p = s.make_packet();
    assert_eq!(&p[8..], &[0, 0, 0xDE, 0xAD, 0, 0]);
}

#[test]
fn accept_strips_20_byte_header() {
    let s = Icmp::new(Version::V4, 0xABCD, Some(0)).unwrap();
    let d = ipv4_datagram(5, &reply_bytes(0xABCD, 3, &[1, 2]));
    let r = s.accept(&d).unwrap().unwrap();
    assert_eq!(r.kind(), 0);
    assert_eq!(r.ident(), 0xABCD);
    assert_eq!(r.sequence(), 3);
    assert_eq!(r.data(), &[1, 2]);
}

#[test]
fn accept_strips_24_byte_header() {
    let s = Icmp::new(Version::V4, 0xABCD, Some(0)).unwrap();
    let d = ipv4_datagram(6, &reply_bytes(0xABCD, 4, &[9]));
    let r = s.accept(&d).unwrap().unwrap();
    assert_eq!(r.ident(), 0xABCD);
    assert_eq!(r.sequence(), 4);
    assert_eq!(r.data(), &[9]);
}

#[test]
fn accept_filters_foreign_identifiers() {
    let s = Icmp::new(Version::V4, 0x0042, Some(0)).unwrap();
    let stream = vec![
        ipv4_datagram(5, &reply_bytes(0x0041, 0, &[])),
        ipv4_datagram(6, &reply_bytes(0xFFFF, 1, &[5])),
        ipv4_datagram(5, &reply_bytes(0x0042, 2, &[8, 8])),
    ];
    let mut discarded = 0;
    let mut found = None;
    for d in &stream {
        match s.accept(d).unwrap() {
            None => discarded += 1,
            Some(r) => {
                found = Some(r);
                break;
            }
        }
    }
    assert_eq!(discarded, 2);
    let r = found.unwrap();
    assert_eq!(r.ident(), 0x0042);
    assert_eq!(r.sequence(), 2);
}

#[test]
fn accept_rejects_truncated_datagrams() {
    let s = Icmp::new(Version::V4, 1, Some(0)).unwrap();
    assert!(matches!(s.accept(&[]), Err(Error::MalformedInput)));
    // A declared 60-byte header in a 20-byte datagram leaves no room for
    // the echo header.
    let mut short = vec![0u8; 20];
    short[0] = 0x4F;
    assert!(matches!(s.accept(&short), Err(Error::MalformedInput)));
    // Seven bytes past a minimal header is one short of an echo header.
    let d = ipv4_datagram(5, &[0u8; 7]);
    assert!(matches!(s.accept(&d), Err(Error::MalformedInput)));
}
