use dns_codec::message::{Answer, DecodeError, Header, Message, Question};

fn header(qdcount: u16, ancount: u16) -> Header {
    Header {
        id: 0x04d2,
        qr: false,
        opcode: 0,
        aa: false,
        tc: false,
        rd: true,
        ra: false,
        z: 0,
        rcode: 0,
        qdcount,
        ancount,
        nscount: 0,
        arcount: 0,
    }
}

fn name_of(len: usize, fill: u8) -> Vec<u8> {
    // Two labels that take `len` octets together.
    assert!(len % 2 == 0 && len >= 4 && len <= 128);
    let mut name = Vec::new();
    for _ in 0..2 {
        name.push((len / 2 - 1) as u8);
        name.extend(std::iter::repeat(fill).take(len / 2 - 1));
    }
    name
}

fn question(len: usize, fill: u8) -> Question {
    Question { name: name_of(len, fill), qtype: 1, qclass: 1 }
}

fn answer(len: usize, fill: u8) -> Answer {
    Answer {
        name: name_of(len, fill),
        qtype: 1,
        qclass: 1,
        ttl: 60,
        length: 4,
        data: vec![fill, 2, 3, 4],
    }
}

fn single_query() -> Vec<u8> {
    let mut bytes = vec![0x04, 0xd2, 0x01, 0x00, 0, 1, 0, 0, 0, 0, 0, 0];
    bytes.extend_from_slice(&[3, b'f', b'o', b'o', 3, b'c', b'o', b'm', 0, 0, 1, 0, 1]);
    bytes
}

fn compressed_query() -> Vec<u8> {
    let mut bytes = vec![0x04, 0xd2, 0x01, 0x00, 0, 2, 0, 0, 0, 0, 0, 0];
    bytes.extend_from_slice(&[3, b'a', b'b', b'c', 3, b'c', b'o', b'm', 0, 0, 1, 0, 1]);
    bytes.extend_from_slice(&[3, b'd', b'e', b'f', 0xc0, 0x10, 0, 1, 0, 1]);
    bytes
}

#[test]
fn message_decodes_a_single_question() {
    let m = Message::decode(&single_query()).unwrap();
    assert_eq!(m.header, header(1, 0));
    assert_eq!(
        m.questions,
        vec![Question {
            name: vec![3, b'f', b'o', b'o', 3, b'c', b'o', b'm'],
            qtype: 1,
            qclass: 1
        }]
    );
    assert!(m.answers.is_empty());
}

#[test]
fn message_decodes_compressed_names() {
    let m = Message::decode(&compressed_query()).unwrap();
    assert_eq!(m.questions.len(), 2);
    assert_eq!(m.questions[0].name, vec![3, b'a', b'b', b'c', 3, b'c', b'o', b'm']);
    assert_eq!(m.questions[1].name, vec![3, b'd', b'e', b'f', 3, b'c', b'o', b'm']);
}

#[test]
fn message_decodes_answers_behind_compressed_questions() {
    let mut bytes = compressed_query();
    bytes[7] = 1;
    // The answer's name is a pointer to the first question's name.
    bytes.extend_from_slice(&[0xc0, 0x0c, 0, 1, 0, 1, 0, 0, 0, 9, 0, 2, 7, 8]);
    let m = Message::decode(&bytes).unwrap();
    assert_eq!(
        m.answers,
        vec![Answer {
            name: vec![3, b'a', b'b', b'c', 3, b'c', b'o', b'm'],
            qtype: 1,
            qclass: 1,
            ttl: 9,
            length: 2,
            data: vec![7, 8],
        }]
    );
}

#[test]
fn message_encodes_header_questions_answers() {
    let m = Message {
        header: header(1, 1),
        questions: vec![Question { name: vec![1, b'a'], qtype: 1, qclass: 1 }],
        answers: vec![Answer {
            name: vec![1, b'a'],
            qtype: 1,
            qclass: 1,
            ttl: 60,
            length: 4,
            data: vec![8, 8, 8, 8],
        }],
    };
    let mut expected = vec![0x04, 0xd2, 0x01, 0x00, 0, 1, 0, 1, 0, 0, 0, 0];
    expected.extend_from_slice(&[1, b'a', 0, 0, 1, 0, 1]);
    expected.extend_from_slice(&[1, b'a', 0, 0, 1, 0, 1, 0, 0, 0, 60, 0, 4, 8, 8, 8, 8]);
    assert_eq!(m.encode(), expected);
}

#[test]
fn message_without_pointers_round_trips_octet_for_octet() {
    let bytes = single_query();
    assert_eq!(Message::decode(&bytes).unwrap().encode(), bytes);

    let m = Message {
        header: Header { qr: true, rcode: 3, z: 2, nscount: 0, ..header(3, 2) },
        questions: vec![question(10, b'a'), question(40, b'b'), question(4, b'c')],
        answers: vec![answer(10, b'a'), answer(40, b'b')],
    };
    let bytes = m.clone().encode();
    assert_eq!(Message::decode(&bytes), Ok(m));
    assert_eq!(Message::decode(&bytes).unwrap().encode(), bytes);
}

#[test]
fn message_with_pointers_is_written_in_full_and_read_back() {
    let first = Message::decode(&compressed_query()).unwrap();
    let bytes = first.clone().encode();
    let mut expected = vec![0x04, 0xd2, 0x01, 0x00, 0, 2, 0, 0, 0, 0, 0, 0];
    expected.extend_from_slice(&[3, b'a', b'b', b'c', 3, b'c', b'o', b'm', 0, 0, 1, 0, 1]);
    expected.extend_from_slice(&[3, b'd', b'e', b'f', 3, b'c', b'o', b'm', 0, 0, 1, 0, 1]);
    assert_eq!(bytes, expected);
    assert_eq!(Message::decode(&bytes), Ok(first));
}

#[test]
fn message_with_pointers_in_answers_is_read_back_the_same() {
    let mut bytes = compressed_query();
    bytes[7] = 2;
    bytes.extend_from_slice(&[0xc0, 0x0c, 0, 1, 0, 1, 0, 0, 0, 9, 0, 2, 7, 8]);
    bytes.extend_from_slice(&[1, b'x', 0xc0, 0x19, 0, 5, 0, 1, 0, 0, 1, 0, 0, 0]);
    let first = Message::decode(&bytes).unwrap();
    assert_eq!(first.answers[1].name, vec![1, b'x', 3, b'd', b'e', b'f', 3, b'c', b'o', b'm']);
    let written = first.clone().encode();
    assert!(written.iter().skip(12).all(|b| *b < 0xc0));
    assert_eq!(Message::decode(&written), Ok(first.clone()));
    assert_eq!(Message::decode(&written).unwrap().encode(), written);
}

#[test]
fn message_decode_ignores_what_follows_the_last_answer() {
    let mut bytes = single_query();
    let m = Message::decode(&bytes).unwrap();
    bytes.extend_from_slice(&[0xff; 20]);
    assert_eq!(Message::decode(&bytes), Ok(m));
}

#[test]
fn message_decode_errors() {
    assert_eq!(Message::decode(&[]), Err(DecodeError::ShortHeader));
    assert_eq!(Message::decode(&single_query()[..11]), Err(DecodeError::ShortHeader));
    assert_eq!(Message::decode(&single_query()[..12]), Err(DecodeError::ShortBuffer));
    assert_eq!(Message::decode(&single_query()[..20]), Err(DecodeError::ShortBuffer));
    assert_eq!(Message::decode(&single_query()[..24]), Err(DecodeError::ShortRecord));
    // The header counts an answer that is not there.
    let mut bytes = single_query();
    bytes[7] = 1;
    assert_eq!(Message::decode(&bytes), Err(DecodeError::ShortBuffer));
}

#[test]
fn message_pointer_to_its_own_offset_is_refused() {
    let mut bytes = vec![0x04, 0xd2, 0x01, 0x00, 0, 1, 0, 0, 0, 0, 0, 0];
    bytes.extend_from_slice(&[0xc0, 0x0c, 0, 1, 0, 1]);
    assert_eq!(Message::decode(&bytes), Err(DecodeError::BadPointer));
}

#[test]
fn message_pointer_loop_is_refused() {
    // The question's name points into the header, at a pointer to itself.
    let mut bytes = vec![0xc0, 0x00, 0x01, 0x00, 0, 1, 0, 0, 0, 0, 0, 0];
    bytes.extend_from_slice(&[0xc0, 0x00, 0, 1, 0, 1]);
    assert_eq!(Message::decode(&bytes), Err(DecodeError::PointerLoop));
}

#[test]
fn message_label_of_64_octets_is_refused() {
    let mut bytes = vec![0x04, 0xd2, 0x01, 0x00, 0, 1, 0, 0, 0, 0, 0, 0];
    bytes.push(64);
    bytes.extend_from_slice(&[b'a'; 64]);
    bytes.extend_from_slice(&[0, 0, 1, 0, 1]);
    assert_eq!(Message::decode(&bytes), Err(DecodeError::BadLabelTag));
}

#[test]
fn message_name_too_long_is_refused() {
    let mut bytes = vec![0x04, 0xd2, 0x01, 0x00, 0, 1, 0, 0, 0, 0, 0, 0];
    for _ in 0..5 {
        bytes.push(60);
        bytes.extend_from_slice(&[b'a'; 60]);
    }
    bytes.extend_from_slice(&[0, 0, 1, 0, 1]);
    assert_eq!(Message::decode(&bytes), Err(DecodeError::NameTooLong));
}

#[test]
fn message_of_512_octets_is_written_whole() {
    // 12 + 4 * (120 + 5) = 512.
    let m = Message {
        header: header(4, 0),
        questions: vec![
            question(120, b'a'),
            question(120, b'b'),
            question(120, b'c'),
            question(120, b'd'),
        ],
        answers: vec![],
    };
    let bytes = m.clone().encode();
    assert_eq!(bytes.len(), 512);
    assert_eq!(bytes[2] & 0x02, 0);
    assert_eq!(Message::decode(&bytes), Ok(m));
}

#[test]
fn message_is_cut_at_a_question() {
    // Ten questions of 65 octets: seven fit behind the header.
    let questions: Vec<Question> = (0..10).map(|i| question(60, b'a' + i)).collect();
    let m = Message {
        header: header(10, 1),
        questions: questions.clone(),
        answers: vec![answer(4, b'z')],
    };
    let bytes = m.encode();
    assert_eq!(bytes.len(), 12 + 7 * 65);
    let back = Message::decode(&bytes).unwrap();
    assert_eq!(back.header, Header { tc: true, ..header(7, 0) });
    assert_eq!(back.questions, questions[..7].to_vec());
    assert!(back.answers.is_empty());
}

#[test]
fn message_is_cut_at_an_answer() {
    // Two questions of 105 octets, then answers of 115: two of them fit. The
    // last answer is short, but stands behind one that is left out.
    let m = Message {
        header: header(2, 4),
        questions: vec![question(100, b'a'), question(100, b'b')],
        answers: vec![
            answer(100, b'c'),
            answer(100, b'd'),
            answer(100, b'e'),
            answer(4, b'f'),
        ],
    };
    let bytes = m.clone().encode();
    assert_eq!(bytes.len(), 12 + 2 * 105 + 2 * 115);
    let back = Message::decode(&bytes).unwrap();
    assert_eq!(back.header, Header { tc: true, ..header(2, 2) });
    assert_eq!(back.questions, m.questions);
    assert_eq!(back.answers, m.answers[..2].to_vec());
}

#[test]
fn message_one_octet_too_long_is_cut() {
    // 12 + 3 * 125 + (121 + 5) = 513.
    let mut long = name_of(118, b'd');
    long.extend_from_slice(&[2, b'x', b'y']);
    let m = Message {
        header: header(4, 0),
        questions: vec![
            question(120, b'a'),
            question(120, b'b'),
            question(120, b'c'),
            Question { name: long, qtype: 1, qclass: 1 },
        ],
        answers: vec![],
    };
    assert_eq!(m.questions[3].name.len(), 121);
    let bytes = m.encode();
    assert_eq!(bytes.len(), 12 + 3 * 125);
    assert_eq!(bytes[2] & 0x02, 0x02);
    assert_eq!(&bytes[4..8], &[0, 3, 0, 0]);
}

#[test]
fn message_decode_never_panics() {
    // Pseudo-random datagrams, and every prefix of a real one.
    let mut seed: u32 = 0x2545f491;
    let mut next = move || {
        seed ^= seed << 13;
        seed ^= seed >> 17;
        seed ^= seed << 5;
        seed
    };
    for round in 0..4000usize {
        let len = (next() % 513) as usize;
        let mut bytes: Vec<u8> = (0..len).map(|_| (next() >> 8) as u8).collect();
        if round % 2 == 0 && len >= 12 {
            // Small counts, so that the records are reached.
            bytes[4] = 0;
            bytes[5] = (next() % 4) as u8;
            bytes[6] = 0;
            bytes[7] = (next() % 4) as u8;
        }
        if round % 4 == 0 {
            for b in bytes.iter_mut().skip(12) {
                if next() % 3 != 0 {
                    *b %= 8;
                }
            }
        }
        match Message::decode(&bytes) {
            Ok(m) => {
                assert_eq!(m.questions.len(), usize::from(m.header.qdcount));
                assert_eq!(m.answers.len(), usize::from(m.header.ancount));
                assert!(m.questions.iter().all(|q| q.name.len() <= 254));
                assert!(m.encode().len() <= 512);
            }
            Err(_) => {}
        }
    }
    let whole = compressed_query();
    for cut in 0..whole.len() {
        assert!(Message::decode(&whole[..cut]).is_err());
    }
}
