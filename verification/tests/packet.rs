use dns_server::common::{dns_reader::DnsReader, AsBytes, Parse, ParseError};
use dns_server::dns::answer::{Answer, RData};
use dns_server::dns::header::Header;
use dns_server::dns::label::Label;
use dns_server::dns::packet::packet_builder::PacketBuilder;
use dns_server::dns::packet::{Merge, Packet};
use dns_server::dns::question::Question;
use dns_server::dns::{RecordClass, RecordType};

fn question(name: &str) -> Question {
    Question { name: Label(name.to_string()), class: RecordClass::IN, typez: RecordType::A }
}

fn answer(name: &str, ttl: u32, rdata: &str) -> Answer {
    Answer {
        name: Label(name.to_string()),
        typez: RecordType::A,
        class: RecordClass::IN,
        ttl,
        rdata: RData(rdata.to_string()),
    }
}

#[test]
fn test_packet_parse() {
    let mut header = Header::default();
    header.id = 99;
    let packet = Packet::builder()
        .header(header)
        .question(Question {
            name: Label("codecrafters.io".to_string()),
            class: RecordClass::IN,
            typez: RecordType::A,
        })
        .build();
    let packet_byte = packet.as_bytes();
    let mut reader = DnsReader::new(&packet_byte);
    let header = Header::parse(&mut reader).unwrap();
    assert_eq!(header.id, 99);
}

#[test]
fn packet_test_as_bytes() {
    let mut header = Header::default();
    header.qdcount = 1;
    let packet = Packet::builder()
        .header(header)
        .question(Question {
            name: Label("codecrafters.io".to_string()),
            class: RecordClass::IN,
            typez: RecordType::A,
        })
        .answer(Answer {
            name: Label("codecrafters.io".to_string()),
            typez: RecordType::A,
            class: RecordClass::IN,
            ttl: 60,
            rdata: RData("8.8.8.8".to_string()),
        })
        .build();
    let bytes = packet.as_bytes();
    assert_eq!(
        bytes,
        vec![
            0, 0, 128, 0, 0, 1, 0, 1, 0, 0, 0, 0, 12, 99, 111, 100, 101, 99, 114, 97, 102, 116,
            101, 114, 115, 2, 105, 111, 0, 0, 1, 0, 1, 12, 99, 111, 100, 101, 99, 114, 97, 102,
            116, 101, 114, 115, 2, 105, 111, 0, 0, 1, 0, 1, 0, 0, 0, 60, 0, 4, 8, 8, 8, 8
        ]
    )
}

#[test]
fn test_parse_2() {
    let bytes = vec![
        249, 79, 1, 0, 0, 1, 0, 0, 0, 0, 0, 0, 12, 99, 111, 100, 101, 99, 114, 97, 102, 116, 101,
        114, 115, 2, 105, 111, 0, 0, 1, 0, 1,
    ];
    let mut reader = DnsReader::new(&bytes);
    let packet = Packet::parse(&mut reader).unwrap();

    assert_eq!(packet.header.id, 63823);
    assert_eq!(packet.header.qdcount, 1);
    assert_eq!(packet.questions.first().unwrap().name.0, "codecrafters.io");
}

#[test]
fn test_parse_compression_packet() {
    let bytes = vec![
        198, 32, 1, 0, //
        0, 2, // << qdcount
        0, 0, // << ancound
        0, 0, 0, 0, //
        //
        3, // 3 length
        97, 98, 99, //
        //
        17, // 17 length
        108, 111, 110, 103, 97, 115, 115, 100, 111, 109, 97, 105, 110, 110, 97, 109, 101,
        //
        3, // 3 length
        99, 111, 109, //
        //
        0, // 0x00 for q end
        //
        0, 1, 0, 1, // These 4 bytes are type and class
        //
        3, 100, 101, 102, // 3 length
        192, 16, // pointer to existing label
        0, 1, 0, 1,
    ];
    let mut reader = DnsReader::new(&bytes);
    let packet = Packet::parse(&mut reader).unwrap();
    println!("PACKET: {:?}", packet);
    assert_eq!(packet.header.id, 50720);
    assert_eq!(packet.header.qdcount, 2);
    assert_eq!(packet.questions.len(), 2);
    assert_eq!(
        packet.questions.first().unwrap().name.0,
        "abc.longassdomainname.com"
    );
    assert_eq!(
        packet.questions.last().unwrap().name.0,
        "def.longassdomainname.com"
    );

    let res_packet = Packet::builder()
        .header(packet.header)
        .answers(
            packet
                .questions
                .iter()
                .map(|q| Answer {
                    name: q.name.clone(),
                    typez: RecordType::A,
                    class: RecordClass::IN,
                    ttl: 60,
                    rdata: RData("8.8.8.8".to_string()),
                })
                .collect(),
        )
        .questions(packet.questions)
        .build();
    assert_eq!(
        res_packet.as_bytes(),
        vec![
            198, 32, 129, 0, 0, 2, 0, 2, 0, 0, 0, 0, // Header
            //
            3, 97, 98, 99, 17, 108, 111, 110, 103, 97, 115, 115, 100, 111, 109, 97, 105, 110, 110,
            97, 109, 101, 3, 99, 111, 109, 0, 0, 1, 0, 1, 3, 100, 101, 102, 17, 108, 111, 110, 103,
            97, 115, 115, 100, 111, 109, 97, 105, 110, 110, 97, 109, 101, 3, 99, 111, 109, 0, 0, 1,
            0, 1, 3, 97, 98, 99, 17, 108, 111, 110, 103, 97, 115, 115, 100, 111, 109, 97, 105, 110,
            110, 97, 109, 101, 3, 99, 111, 109, 0, 0, 1, 0, 1, 0, 0, 0, 60, 0, 4, 8, 8, 8, 8, 3,
            100, 101, 102, 17, 108, 111, 110, 103, 97, 115, 115, 100, 111, 109, 97, 105, 110, 110,
            97, 109, 101, 3, 99, 111, 109, 0, 0, 1, 0, 1, 0, 0, 0, 60, 0, 4, 8, 8, 8, 8
        ]
    );
    assert_eq!(res_packet.as_bytes().len(), 156);
}

#[test]
fn compressed_second_name_is_spliced_with_its_target() {
    let mut bytes = vec![0, 7, 0, 0, 0, 2, 0, 0, 0, 0, 0, 0];
    bytes.extend([3, b'a', b'b', b'c']);
    bytes.push(17);
    bytes.extend(b"longassdomainname");
    bytes.extend([3, b'c', b'o', b'm', 0, 0, 1, 0, 1]);
    bytes.extend([3, b'd', b'e', b'f', 0xC0, 0x10, 0, 1, 0, 1]);
    let mut reader = DnsReader::new(&bytes);
    let packet = Packet::parse(&mut reader).unwrap();
    assert_eq!(packet.questions.len(), 2);
    assert_eq!(packet.questions[0].name.0, "abc.longassdomainname.com");
    assert_eq!(packet.questions[1].name.0, "def.longassdomainname.com");
    assert_eq!(reader.cur_pos, bytes.len());
}

#[test]
fn builder_derives_the_header_from_the_content() {
    let given = Header {
        id: 77,
        qr: 0,
        opcode: 0,
        aa: 1,
        tc: 1,
        rd: 1,
        ra: 1,
        z: 5,
        rcode: 9,
        qdcount: 40,
        ancount: 41,
        nscount: 42,
        arcount: 43,
    };
    let packet = Packet::builder()
        .header(given)
        .question(question("a.example"))
        .question(question("b.example"))
        .answer(answer("a.example", 1, "1.1.1.1"))
        .build();
    assert_eq!(packet.header, Header {
        id: 77,
        qr: 1,
        opcode: 0,
        aa: 0,
        tc: 0,
        rd: 1,
        ra: 0,
        z: 0,
        rcode: 0,
        qdcount: 2,
        ancount: 1,
        nscount: 0,
        arcount: 0,
    });
    assert_eq!(packet.questions[0].name.0, "a.example");
    assert_eq!(packet.questions[1].name.0, "b.example");
    assert_eq!(packet.answers[0].name.0, "a.example");
}

#[test]
fn builder_answers_not_implemented_for_any_other_operation() {
    for opcode in 1..=15u8 {
        let packet = Packet::builder().header(Header { opcode, ..Header::default() }).build();
        assert_eq!(packet.header.opcode, opcode);
        assert_eq!(packet.header.rcode, 4);
    }
    let packet = Packet::builder().header(Header { opcode: 0, rcode: 7, ..Header::default() }).build();
    assert_eq!(packet.header.rcode, 0);
}

#[test]
fn empty_builder_makes_an_empty_response() {
    let packet = PacketBuilder::default().build();
    assert_eq!(packet.header, Header { qr: 1, ..Header::default() });
    assert!(packet.questions.is_empty());
    assert!(packet.answers.is_empty());
    assert_eq!(packet.as_bytes(), vec![0, 0, 0x80, 0, 0, 0, 0, 0, 0, 0, 0, 0]);
}

#[test]
fn builder_lists_replace_what_was_collected() {
    let packet = Packet::builder()
        .question(question("dropped.example"))
        .answer(answer("dropped.example", 1, "1.1.1.1"))
        .questions(vec![question("kept.example")])
        .answers(vec![answer("kept.example", 2, "2.2.2.2"), answer("kept.example", 3, "3.3.3.3")])
        .build();
    assert_eq!(packet.questions.len(), 1);
    assert_eq!(packet.questions[0].name.0, "kept.example");
    assert_eq!(packet.answers.len(), 2);
    assert_eq!(packet.answers[1].rdata.0, "3.3.3.3");
    assert_eq!(packet.header.qdcount, 1);
    assert_eq!(packet.header.ancount, 2);
}

#[test]
fn counts_wrap_at_sixteen_bits() {
    let questions: Vec<Question> = (0..65537).map(|_| question("a")).collect();
    let packet = Packet::builder().questions(questions).build();
    assert_eq!(packet.questions.len(), 65537);
    assert_eq!(packet.header.qdcount, 1);
}

#[test]
fn reply_round_trips_with_header_questions_and_answers() {
    let packet = Packet::builder()
        .header(Header { id: 0xbeef, rd: 1, opcode: 2, ..Header::default() })
        .question(question("codecrafters.io"))
        .question(question("example.com"))
        .answer(answer("codecrafters.io", 60, "8.8.8.8"))
        .answer(answer("example.com", 3600, "93.184.216.34"))
        .answer(answer("example.com", 7, "0.0.0.0"))
        .build();
    let bytes = packet.as_bytes();
    let mut reader = DnsReader::new(&bytes);
    let parsed = Packet::parse_reply(&mut reader).unwrap();
    assert_eq!(reader.cur_pos, bytes.len());
    assert_eq!(parsed.header, packet.header);
    assert_eq!(parsed.header.qdcount, 2);
    assert_eq!(parsed.header.ancount, 3);
    assert_eq!(parsed.header.rcode, 4);
    assert_eq!(parsed.questions.len(), 2);
    assert_eq!(parsed.answers.len(), 3);
    for (got, want) in parsed.questions.iter().zip(packet.questions.iter()) {
        assert_eq!(got.name.0, want.name.0);
        assert_eq!(got.typez, want.typez);
        assert_eq!(got.class, want.class);
    }
    for (got, want) in parsed.answers.iter().zip(packet.answers.iter()) {
        assert_eq!(got.name.0, want.name.0);
        assert_eq!(got.typez, want.typez);
        assert_eq!(got.class, want.class);
        assert_eq!(got.ttl, want.ttl);
        assert_eq!(got.rdata.0, want.rdata.0);
    }
    assert_eq!(parsed.as_bytes(), bytes);
}

#[test]
fn query_round_trips_without_answers() {
    let packet = Packet::builder()
        .header(Header { id: 5, rd: 1, ..Header::default() })
        .question(question("one.example"))
        .question(question("two.example"))
        .build();
    let bytes = packet.as_bytes();
    let mut reader = DnsReader::new(&bytes);
    let parsed = Packet::parse(&mut reader).unwrap();
    assert_eq!(reader.cur_pos, bytes.len());
    assert_eq!(parsed.header, packet.header);
    assert_eq!(parsed.questions.len(), 2);
    assert_eq!(parsed.questions[0].name.0, "one.example");
    assert_eq!(parsed.questions[1].name.0, "two.example");
    assert!(parsed.answers.is_empty());
}

#[test]
fn query_is_decoded_without_its_answers() {
    let packet = Packet::builder()
        .header(Header { id: 5, ..Header::default() })
        .question(question("one.example"))
        .answer(answer("one.example", 60, "8.8.8.8"))
        .build();
    let bytes = packet.as_bytes();
    let mut reader = DnsReader::new(&bytes);
    let parsed = Packet::parse(&mut reader).unwrap();
    assert_eq!(parsed.questions.len(), 1);
    assert!(parsed.answers.is_empty());
    assert_eq!(parsed.header.ancount, 0);
    assert_eq!(reader.cur_pos, 12 + 17);
}

#[test]
fn received_counts_drive_how_many_records_are_read() {
    let mut bytes = vec![0, 1, 0, 0, 0, 3, 0, 0, 0, 0, 0, 0];
    bytes.extend(question("a.b").as_bytes());
    bytes.extend(question("c.d").as_bytes());
    let mut reader = DnsReader::new(&bytes);
    assert_eq!(
        Packet::parse(&mut reader).unwrap_err(),
        ParseError::BufOverflow { cur_pos: 30, n: 1, buf_length: 30 }
    );
    bytes[5] = 1;
    let mut reader = DnsReader::new(&bytes);
    let parsed = Packet::parse(&mut reader).unwrap();
    assert_eq!(parsed.questions.len(), 1);
    assert_eq!(reader.cur_pos, 21);
    bytes[5] = 0;
    let mut reader = DnsReader::new(&bytes);
    let parsed = Packet::parse(&mut reader).unwrap();
    assert!(parsed.questions.is_empty());
    assert_eq!(parsed.header.qdcount, 0);
    assert_eq!(reader.cur_pos, 12);
}

#[test]
fn packet_with_an_unsupported_question_is_refused() {
    let mut bytes = vec![0, 1, 0, 0, 0, 1, 0, 0, 0, 0, 0, 0];
    bytes.extend([1, b'a', 0, 0, 28, 0, 1]);
    let mut reader = DnsReader::new(&bytes);
    assert_eq!(
        Packet::parse(&mut reader).unwrap_err(),
        ParseError::UnsupportedRecord { value: 28 }
    );
    let mut reader = DnsReader::new(&bytes[..7]);
    assert_eq!(
        Packet::parse(&mut reader).unwrap_err(),
        ParseError::BufOverflow { cur_pos: 6, n: 2, buf_length: 7 }
    );
}

#[test]
fn packet_is_encodable_when_every_answer_is() {
    let good = Packet::builder().answer(answer("a", 1, "1.2.3.4")).build();
    assert!(good.is_encodable());
    let bad = Packet::builder()
        .answer(answer("a", 1, "1.2.3.4"))
        .answer(answer("a", 1, "1.2.3"))
        .build();
    assert!(!bad.is_encodable());
    assert!(Packet::builder().question(question("q")).build().is_encodable());
}

#[test]
fn split_gives_one_packet_for_each_question() {
    let request = Packet::builder()
        .header(Header { id: 1234, rd: 1, opcode: 3, ..Header::default() })
        .question(question("one.example"))
        .question(question("two.example"))
        .question(question("one.example"))
        .build();
    let pieces = request.split();
    assert_eq!(pieces.len(), 3);
    for (piece, asked) in pieces.iter().zip(request.questions.iter()) {
        assert_eq!(piece.questions.len(), 1);
        assert_eq!(piece.questions[0].name.0, asked.name.0);
        assert!(piece.answers.is_empty());
        assert_eq!(piece.header, Header { id: piece.header.id, qdcount: 1, ..request.header });
        assert_eq!(piece.header.rd, 1);
        assert_eq!(piece.header.opcode, 3);
        assert_eq!(piece.header.rcode, 4);
    }
    assert!(Packet::builder().build().split().is_empty());
}

#[test]
fn split_draws_its_identifiers_afresh() {
    let questions: Vec<Question> = (0..64).map(|_| question("same.example")).collect();
    let request = Packet::builder().questions(questions).build();
    let first: Vec<u16> = request.split().iter().map(|p| p.header.id).collect();
    let second: Vec<u16> = request.split().iter().map(|p| p.header.id).collect();
    assert_eq!(first.len(), 64);
    assert_ne!(first, second);
    assert!(first.iter().any(|id| *id != first[0]));
}

#[test]
fn split_with_given_identifiers_is_exact() {
    let request = Packet::builder()
        .header(Header { id: 1234, rd: 1, ..Header::default() })
        .question(question("one.example"))
        .question(question("two.example"))
        .answer(answer("one.example", 5, "1.1.1.1"))
        .build();
    let pieces = request.split_with_ids(&vec![10, 20]);
    assert_eq!(pieces.len(), 2);
    assert_eq!(pieces[0].header, Header { id: 10, qr: 1, rd: 1, qdcount: 1, ..Header::default() });
    assert_eq!(pieces[1].header, Header { id: 20, qr: 1, rd: 1, qdcount: 1, ..Header::default() });
    assert_eq!(pieces[0].questions[0].name.0, "one.example");
    assert_eq!(pieces[1].questions[0].name.0, "two.example");
    assert!(pieces[0].answers.is_empty());
    assert!(pieces[1].answers.is_empty());
}

#[test]
fn merge_joins_questions_and_answers_in_order() {
    let replies = vec![
        Packet::builder()
            .header(Header { id: 1, rd: 0, ..Header::default() })
            .question(question("one.example"))
            .answer(answer("one.example", 1, "1.1.1.1"))
            .build(),
        Packet::builder()
            .header(Header { id: 2, rd: 1, ..Header::default() })
            .question(question("two.example"))
            .build(),
        Packet::builder()
            .header(Header { id: 3, rd: 1, opcode: 5, ..Header::default() })
            .question(question("three.example"))
            .question(question("four.example"))
            .answer(answer("three.example", 3, "3.3.3.3"))
            .answer(answer("four.example", 4, "4.4.4.4"))
            .build(),
    ];
    let merged = Packet::merge_with_id(&replies, 4242);
    assert_eq!(merged.header, Header {
        id: 4242,
        qr: 1,
        rd: 0,
        qdcount: 4,
        ancount: 3,
        ..Header::default()
    });
    let names: Vec<&str> = merged.questions.iter().map(|q| q.name.0.as_str()).collect();
    assert_eq!(names, vec!["one.example", "two.example", "three.example", "four.example"]);
    let data: Vec<&str> = merged.answers.iter().map(|a| a.rdata.0.as_str()).collect();
    assert_eq!(data, vec!["1.1.1.1", "3.3.3.3", "4.4.4.4"]);

    let merged = replies.merge();
    assert_eq!(merged.header, Header {
        id: merged.header.id,
        qr: 1,
        rd: 0,
        qdcount: 4,
        ancount: 3,
        ..Header::default()
    });
    assert_eq!(merged.questions.len(), 4);
    assert_eq!(merged.answers.len(), 3);
}

#[test]
fn merge_keeps_the_recursion_flag_of_the_first_member() {
    let with = |rd: u8| Packet::builder().header(Header { rd, ..Header::default() }).build();
    assert_eq!(Packet::merge_with_id(&vec![with(1), with(0)], 1).header.rd, 1);
    assert_eq!(Packet::merge_with_id(&vec![with(0), with(1)], 1).header.rd, 0);
    let nothing: Vec<Packet> = vec![];
    let merged = Packet::merge_with_id(&nothing, 9);
    assert_eq!(merged.header, Header { id: 9, qr: 1, rd: 1, ..Header::default() });
    assert!(merged.questions.is_empty());
}

#[test]
fn split_and_merge_are_inverse_by_position() {
    let names = ["a.example", "b.example", "a.example", "c.example", "b.example"];
    let mut builder = Packet::builder().header(Header { id: 321, rd: 1, ..Header::default() });
    for name in names {
        builder = builder.question(question(name));
    }
    let request = builder.build();
    let pieces = request.split();
    assert_eq!(pieces.len(), names.len());
    let replies: Vec<Packet> = pieces
        .iter()
        .enumerate()
        .map(|(i, piece)| {
            assert_eq!(piece.questions.len(), 1);
            Packet::builder()
                .header(piece.header)
                .question(piece.questions[0].clone())
                .answer(answer(&piece.questions[0].name.0, 60, &format!("10.0.0.{}", i)))
                .build()
        })
        .collect();
    let merged = replies.merge();
    assert_eq!(merged.questions.len(), names.len());
    assert_eq!(merged.answers.len(), names.len());
    assert_eq!(merged.header.qdcount, 5);
    assert_eq!(merged.header.ancount, 5);
    assert_eq!(merged.header.qr, 1);
    for i in 0..names.len() {
        assert_eq!(merged.questions[i].name.0, names[i]);
        assert_eq!(merged.answers[i].name.0, merged.questions[i].name.0);
        assert_eq!(merged.answers[i].rdata.0, format!("10.0.0.{}", i));
    }
}

#[test]
fn split_keeps_every_flag_of_a_header_that_was_not_built() {
    let whole = Packet {
        header: Header {
            id: 4660,
            qr: 0,
            opcode: 2,
            aa: 1,
            tc: 1,
            rd: 0,
            ra: 1,
            z: 5,
            rcode: 9,
            qdcount: 2,
            ancount: 1,
            nscount: 3,
            arcount: 4,
        },
        questions: vec![question("one.example"), question("two.example")],
        answers: vec![answer("one.example", 5, "1.1.1.1")],
    };
    let pieces = whole.split_with_ids(&vec![7, 8]);
    assert_eq!(pieces.len(), 2);
    for (i, piece) in pieces.iter().enumerate() {
        assert_eq!(piece.header, Header {
            id: 7 + i as u16,
            qr: 0,
            opcode: 2,
            aa: 1,
            tc: 1,
            rd: 0,
            ra: 1,
            z: 5,
            rcode: 9,
            qdcount: 1,
            ancount: 0,
            nscount: 0,
            arcount: 0,
        });
        assert_eq!(piece.questions.len(), 1);
        assert_eq!(piece.questions[0].name.0, whole.questions[i].name.0);
        assert!(piece.answers.is_empty());
    }
    // On the wire a piece of a query is a query.
    let bytes = pieces[0].as_bytes();
    assert_eq!(&bytes[..12], &[0, 7, 0b0001_0110, 0b1101_1001, 0, 1, 0, 0, 0, 0, 0, 0]);

    for piece in whole.split() {
        assert_eq!(piece.header, Header {
            id: piece.header.id,
            qdcount: 1,
            ancount: 0,
            nscount: 0,
            arcount: 0,
            ..whole.header
        });
    }
}

#[test]
fn split_of_a_query_gives_queries() {
    let query = Packet {
        header: Header { id: 1, qr: 0, rd: 1, qdcount: 1, ..Header::default() },
        questions: vec![question("codecrafters.io")],
        answers: vec![],
    };
    let pieces = query.split_with_ids(&vec![0xabcd]);
    assert_eq!(pieces[0].header.qr, 0);
    assert_eq!(pieces[0].header.rd, 1);
    assert_eq!(
        pieces[0].as_bytes(),
        vec![
            0xab, 0xcd, 1, 0, 0, 1, 0, 0, 0, 0, 0, 0, 12, 99, 111, 100, 101, 99, 114, 97, 102,
            116, 101, 114, 115, 2, 105, 111, 0, 0, 1, 0, 1
        ]
    );
}
