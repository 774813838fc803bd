use dns_codec::message::{BuildError, DecodeError, Header, HeaderBuilder};

fn query_header() -> Header {
    Header {
        id: 0x04d2,
        qr: false,
        opcode: 0,
        aa: false,
        tc: false,
        rd: true,
        ra: false,
        z: 0,
        rcode: 0,
        qdcount: 1,
        ancount: 0,
        nscount: 0,
        arcount: 0,
    }
}

#[test]
fn header_encodes_to_twelve_octets() {
    let bytes = query_header().encode();
    assert_eq!(bytes, vec![0x04, 0xd2, 0x01, 0x00, 0, 1, 0, 0, 0, 0, 0, 0]);
}

#[test]
fn header_packs_every_flag() {
    let h = Header {
        id: 0xbeef,
        qr: true,
        opcode: 0x0a,
        aa: true,
        tc: false,
        rd: true,
        ra: true,
        z: 5,
        rcode: 3,
        qdcount: 0x0102,
        ancount: 0x0304,
        nscount: 0x0506,
        arcount: 0x0708,
    };
    assert_eq!(
        h.encode(),
        vec![0xbe, 0xef, 0xd5, 0xd3, 0x01, 0x02, 0x03, 0x04, 0x05, 0x06, 0x07, 0x08]
    );
}

#[test]
fn header_packs_single_flags() {
    let base = Header { id: 0, rd: false, qdcount: 0, ..query_header() };
    assert_eq!(Header { qr: true, ..base }.encode()[2], 0x80);
    assert_eq!(Header { opcode: 15, ..base }.encode()[2], 0x78);
    assert_eq!(Header { aa: true, ..base }.encode()[2], 0x04);
    assert_eq!(Header { tc: true, ..base }.encode()[2], 0x02);
    assert_eq!(Header { rd: true, ..base }.encode()[2], 0x01);
    assert_eq!(Header { ra: true, ..base }.encode()[3], 0x80);
    assert_eq!(Header { z: 7, ..base }.encode()[3], 0x70);
    assert_eq!(Header { rcode: 15, ..base }.encode()[3], 0x0f);
}

#[test]
fn header_decode_reads_each_field() {
    let bytes = [0xbe, 0xef, 0xd5, 0xd3, 0x01, 0x02, 0x03, 0x04, 0x05, 0x06, 0x07, 0x08];
    let h = Header::decode(&bytes).unwrap();
    assert_eq!(h.id, 0xbeef);
    assert!(h.qr);
    assert_eq!(h.opcode, 10);
    assert!(h.aa);
    assert!(!h.tc);
    assert!(h.rd);
    assert!(h.ra);
    assert_eq!(h.z, 5);
    assert_eq!(h.rcode, 3);
    assert_eq!(h.qdcount, 0x0102);
    assert_eq!(h.ancount, 0x0304);
    assert_eq!(h.nscount, 0x0506);
    assert_eq!(h.arcount, 0x0708);
}

#[test]
fn header_round_trips_for_every_flag_combination() {
    for opcode in 0..16u8 {
        for z in 0..8u8 {
            for rcode in 0..16u8 {
                for flags in 0..32u8 {
                    let h = Header {
                        id: 0x1234 ^ (u16::from(flags) << 8),
                        qr: flags & 1 != 0,
                        opcode,
                        aa: flags & 2 != 0,
                        tc: flags & 4 != 0,
                        rd: flags & 8 != 0,
                        ra: flags & 16 != 0,
                        z,
                        rcode,
                        qdcount: u16::from(opcode) * 257,
                        ancount: u16::from(z) * 1000,
                        nscount: u16::from(rcode),
                        arcount: 65535,
                    };
                    assert_eq!(Header::decode(&h.encode()), Ok(h));
                }
            }
        }
    }
}

#[test]
fn header_bytes_round_trip_for_every_flag_octet() {
    for f1 in 0..=255u8 {
        for f2 in [0u8, 1, 0x0f, 0x10, 0x70, 0x80, 0xa5, 0xff] {
            let bytes = vec![0x12, 0x34, f1, f2, 0, 1, 0, 2, 0, 3, 0, 4];
            let h = Header::decode(&bytes).unwrap();
            assert_eq!(h.encode(), bytes);
        }
    }
}

#[test]
fn header_decode_ignores_what_follows() {
    let mut bytes = query_header().encode();
    bytes.extend_from_slice(&[1, 2, 3]);
    assert_eq!(Header::decode(&bytes), Ok(query_header()));
}

#[test]
fn header_decode_short_input() {
    assert_eq!(Header::decode(&[0u8; 11]), Err(DecodeError::ShortHeader));
    assert_eq!(Header::decode(&[]), Err(DecodeError::ShortHeader));
    assert!(Header::decode(&[0u8; 12]).is_ok());
}

#[test]
fn header_builder_defaults() {
    let h = HeaderBuilder::new().build();
    assert_eq!(
        h,
        Header {
            id: 1234,
            qr: true,
            opcode: 0,
            aa: false,
            tc: false,
            rd: false,
            ra: false,
            z: 0,
            rcode: 0,
            qdcount: 0,
            ancount: 0,
            nscount: 0,
            arcount: 0,
        }
    );
    assert_eq!(Header::builder().build(), h);
}

#[test]
fn header_builder_sets_each_field() {
    let h = Header::builder()
        .id(7)
        .unwrap()
        .qr(false)
        .unwrap()
        .opcode(2)
        .unwrap()
        .aa(true)
        .unwrap()
        .tc(true)
        .unwrap()
        .rd(true)
        .unwrap()
        .ra(true)
        .unwrap()
        .z(1)
        .unwrap()
        .rcode(4)
        .unwrap()
        .qdcount(10)
        .unwrap()
        .ancount(11)
        .unwrap()
        .nscount(12)
        .unwrap()
        .arcount(13)
        .unwrap()
        .build();
    assert_eq!(
        h,
        Header {
            id: 7,
            qr: false,
            opcode: 2,
            aa: true,
            tc: true,
            rd: true,
            ra: true,
            z: 1,
            rcode: 4,
            qdcount: 10,
            ancount: 11,
            nscount: 12,
            arcount: 13,
        }
    );
}

#[test]
fn header_builder_refuses_wide_fields() {
    assert!(matches!(Header::builder().opcode(16), Err(BuildError::FieldOutOfRange)));
    assert!(matches!(Header::builder().opcode(255), Err(BuildError::FieldOutOfRange)));
    assert!(matches!(Header::builder().z(8), Err(BuildError::FieldOutOfRange)));
    assert!(matches!(Header::builder().rcode(16), Err(BuildError::FieldOutOfRange)));
    assert!(Header::builder().opcode(15).is_ok());
    assert!(Header::builder().z(7).is_ok());
    assert!(Header::builder().rcode(15).is_ok());
}

#[test]
fn header_encode_packs_fields_as_they_are_held() {
    // An opcode of five bits runs into the bit above its four.
    let h = Header { opcode: 0x1f, qr: false, rd: false, ..query_header() };
    assert_eq!(h.encode()[2], 0xf8);
    let h = Header { z: 0x0f, rcode: 0, ..query_header() };
    assert_eq!(h.encode()[3], 0xf0);
}
