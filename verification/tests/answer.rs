use dns_server::common::{AsBytes, DnsReader, Parse, ParseError};
use dns_server::dns::answer::{Answer, RData};
use dns_server::dns::label::Label;
use dns_server::dns::{RecordClass, RecordType};

#[test]
fn test_dns_answer() {
    let answer = Answer {
        name: Label("google.com".to_string()),
        typez: RecordType::A,
        class: RecordClass::IN,
        ttl: 60,
        rdata: RData("8.8.8.8".to_string()),
    };
    assert_eq!(
        answer.as_bytes(),
        vec![
            6, // length
            103, 111, 111, 103, 108, 101, // google
            3,   // length
            99, 111, 109, // com
            0,   // label end
            0, 1, 0, 1, // class and type
            0, 0, 0, 60, // ttl 4-byte
            0, 4, 8, 8, 8, 8
        ]
    );
}

#[test]
fn answer_round_trips() {
    let answer = Answer {
        name: Label("codecrafters.io".to_string()),
        typez: RecordType::A,
        class: RecordClass::IN,
        ttl: 0x0102_0304,
        rdata: RData("192.168.0.255".to_string()),
    };
    let bytes = answer.as_bytes();
    assert_eq!(&bytes[bytes.len() - 10..], &[1, 2, 3, 4, 0, 4, 192, 168, 0, 255]);
    let mut reader = DnsReader::new(&bytes);
    let parsed = Answer::parse(&mut reader).unwrap();
    assert_eq!(parsed.name.0, "codecrafters.io");
    assert_eq!(parsed.typez, RecordType::A);
    assert_eq!(parsed.class, RecordClass::IN);
    assert_eq!(parsed.ttl, 0x0102_0304);
    assert_eq!(parsed.rdata.0, "192.168.0.255");
    assert_eq!(reader.cur_pos, bytes.len());
}

#[test]
fn ttl_is_four_bytes_big_endian() {
    let bytes = vec![0xde, 0xad, 0xbe, 0xef, 0x01];
    let mut reader = DnsReader::new(&bytes);
    assert_eq!(Answer::parse_ttl(&mut reader), Ok(0xdead_beef));
    assert_eq!(reader.cur_pos, 4);
    assert_eq!(
        Answer::parse_ttl(&mut reader),
        Err(ParseError::BufOverflow { cur_pos: 4, n: 4, buf_length: 5 })
    );
    assert_eq!(reader.cur_pos, 4);
}

#[test]
fn rdata_is_written_out_as_dotted_decimal() {
    assert_eq!(RData::from_octets(&[8, 8, 8, 8]).0, "8.8.8.8");
    assert_eq!(RData::from_octets(&[0, 9, 10, 99]).0, "0.9.10.99");
    assert_eq!(RData::from_octets(&[100, 101, 200, 255]).0, "100.101.200.255");
    assert_eq!(RData::from_octets(&[]).0, "");
    assert_eq!(RData::from_octets(&[7]).0, "7");
    assert_eq!(RData::from_octets(&[1, 2, 3, 4, 5]).0, "1.2.3.4.5");
    for byte in 0..=255u8 {
        assert_eq!(RData::from_octets(&[byte]).0, byte.to_string());
    }
}

#[test]
fn rdata_is_decoded_with_its_length() {
    let bytes = vec![0, 4, 127, 0, 0, 1, 9];
    let mut reader = DnsReader::new(&bytes);
    assert_eq!(RData::parse(&mut reader).unwrap().0, "127.0.0.1");
    assert_eq!(reader.cur_pos, 6);

    let bytes = vec![0, 0];
    let mut reader = DnsReader::new(&bytes);
    assert_eq!(RData::parse(&mut reader).unwrap().0, "");

    let bytes = vec![0, 2, 10, 20];
    let mut reader = DnsReader::new(&bytes);
    assert_eq!(RData::parse(&mut reader).unwrap().0, "10.20");
}

#[test]
fn rdata_cut_short_is_a_read_error() {
    let bytes = vec![0, 4, 127, 0, 0];
    let mut reader = DnsReader::new(&bytes);
    assert_eq!(
        RData::parse(&mut reader).unwrap_err(),
        ParseError::BufOverflow { cur_pos: 2, n: 4, buf_length: 5 }
    );
    assert_eq!(reader.cur_pos, 2);
    let bytes = vec![0];
    let mut reader = DnsReader::new(&bytes);
    assert_eq!(
        RData::parse(&mut reader).unwrap_err(),
        ParseError::BufOverflow { cur_pos: 0, n: 2, buf_length: 1 }
    );
    assert_eq!(reader.cur_pos, 0);
}

#[test]
fn rdata_text_is_read_as_four_bytes() {
    assert_eq!(RData("8.8.8.8".to_string()).octets(), Some(vec![8, 8, 8, 8]));
    assert_eq!(RData("0.0.0.0".to_string()).octets(), Some(vec![0, 0, 0, 0]));
    assert_eq!(RData("255.255.255.255".to_string()).octets(), Some(vec![255, 255, 255, 255]));
    assert_eq!(RData("192.168.1.20".to_string()).as_bytes(), vec![192, 168, 1, 20]);
    // A sign and leading zeros do not change the number.
    assert_eq!(RData("+1.002.0003.+04".to_string()).octets(), Some(vec![1, 2, 3, 4]));
    assert_eq!(RData("0000000000000000000000255.0.0.0".to_string()).octets(), Some(vec![255, 0, 0, 0]));
}

#[test]
fn rdata_text_that_is_no_address_is_refused() {
    for text in [
        "",
        "8",
        "8.8.8",
        "8.8.8.8.8",
        "8.8.8.",
        ".8.8.8",
        "8..8.8",
        "256.0.0.0",
        "0.0.0.256",
        "1000.0.0.0",
        "99999999999999999999999999.0.0.0",
        "-1.0.0.0",
        "1.2.3.x",
        "1.2.3.4 ",
        " 1.2.3.4",
        "1.2.3.+",
        "1.2.3.++4",
        "1.2.3.4+",
        "1.2.3.0x4",
        "1.2.3.\u{663}",
        "a.b.c.d",
    ] {
        assert_eq!(RData(text.to_string()).octets(), None, "{:?}", text);
    }
}

#[test]
fn rdata_text_agrees_with_the_standard_library_on_every_part() {
    for part in ["0", "7", "07", "+7", "255", "256", "", "+", "-", "-0", "1a", "\u{663}", "0255", "2555", " 1"] {
        let text = format!("1.2.3.{}", part);
        let expected = part.parse::<u8>().ok().map(|last| vec![1, 2, 3, last]);
        assert_eq!(RData(text.clone()).octets(), expected, "{:?}", text);
    }
}

#[test]
fn answer_stops_at_the_first_part_that_fails() {
    let mut bytes = Label("a.b".to_string()).as_bytes();
    bytes.extend([0, 1, 0, 1, 0, 0, 0]);
    let mut reader = DnsReader::new(&bytes);
    assert_eq!(
        Answer::parse(&mut reader).unwrap_err(),
        ParseError::BufOverflow { cur_pos: 9, n: 4, buf_length: 12 }
    );
    let mut bytes = Label("a.b".to_string()).as_bytes();
    bytes.extend([0, 5, 0, 1, 0, 0, 0, 1, 0, 0]);
    let mut reader = DnsReader::new(&bytes);
    assert_eq!(
        Answer::parse(&mut reader).unwrap_err(),
        ParseError::UnsupportedRecord { value: 5 }
    );
}

#[test]
fn answer_clone_keeps_every_field() {
    let answer = Answer {
        name: Label("google.com".to_string()),
        typez: RecordType::A,
        class: RecordClass::IN,
        ttl: 60,
        rdata: RData("8.8.8.8".to_string()),
    };
    let copy = answer.clone();
    assert_eq!(copy.name.0, "google.com");
    assert_eq!(copy.ttl, 60);
    assert_eq!(copy.rdata.0, "8.8.8.8");
    assert_eq!(copy.as_bytes(), answer.as_bytes());
}
