use dns_server::common::{AsBytes, DnsReader, Parse, ParseError};
use dns_server::dns::header::Header;

#[test]
fn header_test_parse() {
    let header = Header {
        id: 9999,
        qr: 1,
        opcode: 1,
        aa: 1,
        tc: 1,
        rd: 1,
        ra: 1,
        z: 1,
        rcode: 1,
        qdcount: 1,
        ancount: 1,
        nscount: 1,
        arcount: 1,
    };
    let byte = header.as_bytes();
    let mut reader = DnsReader::new(&byte[..]);

    let parsed = Header::parse(&mut reader).unwrap();
    assert_eq!(header.id, parsed.id);
    assert_eq!(header.qr, parsed.qr);
    assert_eq!(header.opcode, parsed.opcode);
    assert_eq!(header.aa, parsed.aa);
    assert_eq!(header.tc, parsed.tc);
    assert_eq!(header.rd, parsed.rd);
    assert_eq!(header.ra, parsed.ra);
    assert_eq!(header.z, parsed.z);
    assert_eq!(header.rcode, parsed.rcode);
}

#[test]
fn header_test_as_bytes() {
    let dns_header = Header {
        id: 1234,
        qr: 1,
        opcode: 0,
        aa: 0,
        tc: 0,
        rd: 0,
        ra: 0,
        z: 0,
        rcode: 0,
        qdcount: 0,
        ancount: 0,
        nscount: 0,
        arcount: 0,
    };
    let byte = dns_header.as_bytes();

    assert_eq!(
        byte,
        vec![
            // id
            0b100,
            0b11010010,
            // other bits
            0b1000_0000,
            0b0000_0000,
            // qdcount
            0b0,
            0b0,
            //ancount
            0b0,
            0b0,
            //nscount
            0b0,
            0b0,
            // arcount
            0b0,
            0b0
        ]
    );
}

#[test]
fn header_with_only_qr_set_packs_to_0x80_0x00() {
    let header = Header { qr: 1, ..Header::default() };
    let bytes = header.as_bytes();
    assert_eq!(bytes.len(), 12);
    assert_eq!(&bytes[2..4], &[0x80, 0x00]);
    assert_eq!(header.flags_as_bytes(), [0x80, 0x00]);
}

#[test]
fn each_flag_lands_on_its_own_bits() {
    let zero = Header::default();
    assert_eq!(Header { opcode: 0b1111, ..zero }.flags_as_bytes(), [0b0111_1000, 0]);
    assert_eq!(Header { aa: 1, ..zero }.flags_as_bytes(), [0b0000_0100, 0]);
    assert_eq!(Header { tc: 1, ..zero }.flags_as_bytes(), [0b0000_0010, 0]);
    assert_eq!(Header { rd: 1, ..zero }.flags_as_bytes(), [0b0000_0001, 0]);
    assert_eq!(Header { ra: 1, ..zero }.flags_as_bytes(), [0, 0b1000_0000]);
    assert_eq!(Header { z: 0b111, ..zero }.flags_as_bytes(), [0, 0b0111_0000]);
    assert_eq!(Header { rcode: 0b1111, ..zero }.flags_as_bytes(), [0, 0b0000_1111]);
    assert_eq!(Header { opcode: 0b1010, z: 0b101, rcode: 0b0110, ..zero }.flags_as_bytes(), [
        0b0101_0000,
        0b0101_0110
    ]);
}

#[test]
fn header_with_every_field_full_packs_losslessly() {
    let header = Header {
        id: 0xffff,
        qr: 1,
        opcode: 0b1111,
        aa: 1,
        tc: 1,
        rd: 1,
        ra: 1,
        z: 0b111,
        rcode: 0b1111,
        qdcount: 0xffff,
        ancount: 0xfffe,
        nscount: 0x0102,
        arcount: 0x8001,
    };
    let bytes = header.as_bytes();
    assert_eq!(bytes, vec![0xff, 0xff, 0xff, 0xff, 0xff, 0xff, 0xff, 0xfe, 0x01, 0x02, 0x80, 0x01]);
    let mut reader = DnsReader::new(&bytes);
    assert_eq!(Header::parse(&mut reader).unwrap(), header);
    assert_eq!(reader.cur_pos, 12);
}

#[test]
fn header_round_trip_over_many_values() {
    for id in [0u16, 1, 99, 0x1234, 0xffff] {
        for flags in 0u16..=0xff {
            let header = Header {
                id,
                qr: (flags & 1) as u8,
                opcode: ((flags >> 1) & 0xf) as u8,
                aa: ((flags >> 5) & 1) as u8,
                tc: ((flags >> 6) & 1) as u8,
                rd: ((flags >> 7) & 1) as u8,
                ra: (flags & 1) as u8,
                z: ((flags >> 2) & 7) as u8,
                rcode: ((flags >> 4) & 0xf) as u8,
                qdcount: flags,
                ancount: id,
                nscount: flags ^ id,
                arcount: 7,
            };
            let bytes = header.as_bytes();
            let mut reader = DnsReader::new(&bytes);
            assert_eq!(Header::parse(&mut reader).unwrap(), header);
        }
    }
}

#[test]
fn only_the_low_bits_of_a_flag_field_are_written() {
    let header = Header { qr: 0b10, opcode: 0b1_0001, z: 0b1001, rcode: 0xf0, ..Header::default() };
    assert_eq!(header.flags_as_bytes(), [0b0000_1000, 0b0001_0000]);
}

#[test]
fn parsed_flags_are_taken_apart_in_wire_order() {
    let bytes = vec![0x12, 0x34, 0b1011_0101, 0b1010_0011, 0, 1, 0, 2, 0, 3, 0, 4];
    let mut reader = DnsReader::new(&bytes);
    let header = Header::parse(&mut reader).unwrap();
    assert_eq!(header, Header {
        id: 0x1234,
        qr: 1,
        opcode: 0b0110,
        aa: 1,
        tc: 0,
        rd: 1,
        ra: 1,
        z: 0b010,
        rcode: 0b0011,
        qdcount: 1,
        ancount: 2,
        nscount: 3,
        arcount: 4,
    });
}

#[test]
fn header_shorter_than_twelve_bytes_is_a_read_error() {
    let bytes = vec![0u8; 11];
    let mut reader = DnsReader::new(&bytes);
    assert_eq!(
        Header::parse(&mut reader),
        Err(ParseError::BufOverflow { cur_pos: 10, n: 2, buf_length: 11 })
    );
    assert_eq!(reader.cur_pos, 10);

    let bytes: Vec<u8> = vec![];
    let mut reader = DnsReader::new(&bytes);
    assert_eq!(
        Header::parse(&mut reader),
        Err(ParseError::BufOverflow { cur_pos: 0, n: 2, buf_length: 0 })
    );

    let bytes = vec![0u8; 5];
    let mut reader = DnsReader::new(&bytes);
    assert_eq!(
        Header::parse(&mut reader),
        Err(ParseError::BufOverflow { cur_pos: 4, n: 2, buf_length: 5 })
    );
}

#[test]
fn two_byte_number_is_read_big_endian() {
    let bytes = vec![0xab, 0xcd, 0x01];
    let mut reader = DnsReader::new(&bytes);
    assert_eq!(Header::read_two_byte_number(&mut reader), Ok(0xabcd));
    assert_eq!(reader.cur_pos, 2);
    assert_eq!(
        Header::read_two_byte_number(&mut reader),
        Err(ParseError::BufOverflow { cur_pos: 2, n: 2, buf_length: 3 })
    );
    assert_eq!(reader.cur_pos, 2);
}

#[test]
fn default_header_is_all_zero() {
    assert_eq!(Header::default().as_bytes(), vec![0u8; 12]);
}
