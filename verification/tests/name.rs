use dns_codec::message::name::{decode_name, encode_domain, encode_name};
use dns_codec::message::{BuildError, DecodeError};

#[test]
fn name_encodes_labels_behind_their_lengths() {
    assert_eq!(
        encode_name(b"foo.com"),
        Ok(vec![3, b'f', b'o', b'o', 3, b'c', b'o', b'm'])
    );
    assert_eq!(encode_name(b"a"), Ok(vec![1, b'a']));
    assert_eq!(
        encode_domain("codecrafters.io"),
        Ok(vec![
            12, b'c', b'o', b'd', b'e', b'c', b'r', b'a', b'f', b't', b'e', b'r', b's', 2, b'i',
            b'o'
        ])
    );
}

#[test]
fn name_takes_octets_not_characters() {
    // U+00E9 is two octets in UTF-8.
    assert_eq!(encode_domain("\u{e9}.x"), Ok(vec![2, 0xc3, 0xa9, 1, b'x']));
}

#[test]
fn name_refuses_empty_labels() {
    assert_eq!(encode_name(b""), Err(BuildError::EmptyLabel));
    assert_eq!(encode_name(b"."), Err(BuildError::EmptyLabel));
    assert_eq!(encode_name(b".com"), Err(BuildError::EmptyLabel));
    assert_eq!(encode_name(b"foo."), Err(BuildError::EmptyLabel));
    assert_eq!(encode_name(b"foo..com"), Err(BuildError::EmptyLabel));
}

#[test]
fn name_refuses_long_labels() {
    let ok = "a".repeat(63);
    let long = "a".repeat(64);
    assert_eq!(encode_domain(&ok).map(|n| n.len()), Ok(64));
    assert_eq!(encode_domain(&long), Err(BuildError::LabelTooLong));
    assert_eq!(encode_domain(&format!("b.{}", long)), Err(BuildError::LabelTooLong));
}

#[test]
fn name_refuses_long_names() {
    // Four labels of 63 octets: 256 octets of labels.
    let label = "a".repeat(63);
    let long = format!("{0}.{0}.{0}.{0}", label);
    assert_eq!(encode_domain(&long), Err(BuildError::NameTooLong));
    // 253 octets of text are 254 octets of labels: the most there can be.
    let most = format!("{0}.{0}.{0}.{1}", label, "b".repeat(61));
    assert_eq!(most.len(), 253);
    assert_eq!(encode_domain(&most).map(|n| n.len()), Ok(254));
    let one_more = format!("{0}.{0}.{0}.{1}", label, "b".repeat(62));
    assert_eq!(encode_domain(&one_more), Err(BuildError::NameTooLong));
}

#[test]
fn name_reports_the_first_bad_label_before_the_length() {
    let label = "a".repeat(63);
    let text = format!("{0}.{0}.{0}.{0}.{1}", label, "c".repeat(64));
    assert_eq!(encode_domain(&text), Err(BuildError::LabelTooLong));
    let text = format!("{0}.{0}.{0}.{0}..", label);
    assert_eq!(encode_domain(&text), Err(BuildError::EmptyLabel));
}

#[test]
fn name_with_127_labels() {
    let text = vec!["x"; 127].join(".");
    let name = encode_domain(&text).unwrap();
    assert_eq!(name.len(), 254);
    let mut wire = name.clone();
    wire.push(0);
    assert_eq!(decode_name(&wire, 0), Ok((name, 255)));
}

#[test]
fn name_decodes_up_to_the_terminator() {
    let buf = [0xff, 3, b'f', b'o', b'o', 3, b'c', b'o', b'm', 0, 9, 9];
    assert_eq!(
        decode_name(&buf, 1),
        Ok((vec![3, b'f', b'o', b'o', 3, b'c', b'o', b'm'], 10))
    );
}

#[test]
fn name_decodes_the_root() {
    assert_eq!(decode_name(&[0], 0), Ok((vec![], 1)));
}

#[test]
fn name_follows_a_pointer_and_stops_behind_it() {
    // "com" at 0, "def" + pointer to 0 at 5.
    let buf = [3, b'c', b'o', b'm', 0, 3, b'd', b'e', b'f', 0xc0, 0x00, 0xaa, 0xbb];
    assert_eq!(
        decode_name(&buf, 5),
        Ok((vec![3, b'd', b'e', b'f', 3, b'c', b'o', b'm'], 11))
    );
}

#[test]
fn name_follows_chained_pointers() {
    // "c" at 0; "b" + pointer to 0 at 3; "a" + pointer to 3 at 7.
    let buf = [1, b'c', 0, 1, b'b', 0xc0, 0x00, 1, b'a', 0xc0, 0x03];
    assert_eq!(decode_name(&buf, 7), Ok((vec![1, b'a', 1, b'b', 1, b'c'], 11)));
}

#[test]
fn name_pointer_uses_fourteen_bits() {
    let mut buf = vec![0u8; 0x0200];
    buf[0x0123] = 1;
    buf[0x0124] = b'z';
    buf[0x0125] = 0;
    buf.extend_from_slice(&[0xc1, 0x23]);
    assert_eq!(decode_name(&buf, 0x0200), Ok((vec![1, b'z'], 0x0202)));
}

#[test]
fn name_pointer_to_itself_is_refused() {
    assert_eq!(decode_name(&[0xc0, 0x00], 0), Err(DecodeError::BadPointer));
    let buf = [0, 0, 0xc0, 0x02];
    assert_eq!(decode_name(&buf, 2), Err(DecodeError::BadPointer));
}

#[test]
fn name_pointer_forwards_is_refused() {
    let buf = [0xc0, 0x02, 1, b'a', 0];
    assert_eq!(decode_name(&buf, 0), Err(DecodeError::BadPointer));
}

#[test]
fn name_pointer_loop_is_refused() {
    // The pointer at 0 points at itself; the name at 2 points at it.
    let buf = [0xc0, 0x00, 0xc0, 0x00];
    assert_eq!(decode_name(&buf, 2), Err(DecodeError::PointerLoop));
}

#[test]
fn name_follows_128_pointers_and_no_more() {
    // A terminator at 0, then pointers at 1, 3, 5, ..., each to the one before.
    let chain = |n: usize| -> Vec<u8> {
        let mut buf = vec![0u8];
        for k in 0..n {
            let target = if k == 0 { 0 } else { 1 + 2 * (k - 1) };
            buf.push(0xc0 | (target >> 8) as u8);
            buf.push((target & 0xff) as u8);
        }
        buf
    };
    let buf = chain(128);
    let last = 1 + 2 * 127;
    assert_eq!(decode_name(&buf, last), Ok((vec![], last + 2)));
    let buf = chain(129);
    let last = 1 + 2 * 128;
    assert_eq!(decode_name(&buf, last), Err(DecodeError::PointerLoop));
}

#[test]
fn name_reserved_tags_are_refused() {
    assert_eq!(decode_name(&[0x40, 0], 0), Err(DecodeError::BadLabelTag));
    assert_eq!(decode_name(&[0x7f, 0], 0), Err(DecodeError::BadLabelTag));
    assert_eq!(decode_name(&[0x80, 0], 0), Err(DecodeError::BadLabelTag));
    assert_eq!(decode_name(&[0xbf, 0], 0), Err(DecodeError::BadLabelTag));
    assert_eq!(decode_name(&[1, b'a', 0x40, 0], 0), Err(DecodeError::BadLabelTag));
}

#[test]
fn name_past_the_buffer_is_refused() {
    assert_eq!(decode_name(&[], 0), Err(DecodeError::ShortBuffer));
    assert_eq!(decode_name(&[0], 1), Err(DecodeError::ShortBuffer));
    assert_eq!(decode_name(&[0], 7), Err(DecodeError::ShortBuffer));
    assert_eq!(decode_name(&[3, b'a', b'b'], 0), Err(DecodeError::ShortBuffer));
    assert_eq!(decode_name(&[3, b'a', b'b', b'c'], 0), Err(DecodeError::ShortBuffer));
    assert_eq!(decode_name(&[0, 0xc0], 1), Err(DecodeError::ShortBuffer));
}

#[test]
fn name_longer_than_254_octets_is_refused() {
    let mut buf = Vec::new();
    for _ in 0..4 {
        buf.push(63);
        buf.extend_from_slice(&[b'a'; 63]);
    }
    buf.push(0);
    assert_eq!(decode_name(&buf, 0), Err(DecodeError::NameTooLong));
    // Three labels of 63 and one of 61 are 254 octets.
    let mut buf = Vec::new();
    for _ in 0..3 {
        buf.push(63);
        buf.extend_from_slice(&[b'a'; 63]);
    }
    buf.push(61);
    buf.extend_from_slice(&[b'b'; 61]);
    buf.push(0);
    let name = buf[..254].to_vec();
    assert_eq!(decode_name(&buf, 0), Ok((name, 255)));
}

#[test]
fn name_grown_by_pointers_past_254_octets_is_refused() {
    // 200 octets of labels at 0, then a name of 100 octets that points at them.
    let mut buf = Vec::new();
    for _ in 0..4 {
        buf.push(49);
        buf.extend_from_slice(&[b'a'; 49]);
    }
    buf.push(0);
    let start = buf.len();
    for _ in 0..2 {
        buf.push(49);
        buf.extend_from_slice(&[b'b'; 49]);
    }
    buf.extend_from_slice(&[0xc0, 0x00]);
    assert_eq!(decode_name(&buf, start), Err(DecodeError::NameTooLong));
}
