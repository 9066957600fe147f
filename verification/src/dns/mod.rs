//! The DNS message: header, names, questions, answers and whole packets.

use crate::common::bits::{be16, u16_from_be_bytes, u16_to_be_bytes};
use crate::common::dns_reader::{after_number, number_at};
use crate::common::{AsBytes, DnsReader, Parse, ParseError, Parsed};
use vstd::prelude::*;

pub mod answer;
pub mod header;
pub mod label;
pub mod message;
pub mod packet;
pub mod question;
pub mod resolver;
pub mod server;

pub use self::label::Label;

verus! {

/// The types of resource records.
#[derive(Debug, PartialEq, Eq, Clone, Copy)]
pub enum RecordType {
    A,
    NS,
    MD,
    MF,
    CNAME,
    SOA,
    MB,
    MG,
    MR,
    NULL,
    WKS,
    PTR,
    HINFO,
    MINFO,
    MX,
    TXT,
}

/// The classes of resource records.
#[derive(Debug, PartialEq, Eq, Clone, Copy)]
pub enum RecordClass {
    IN,
    CS,
    CH,
    HS,
}

/// The wire value of a record type.
pub open spec fn type_code(typez: RecordType) -> u16 {
    match typez {
        RecordType::A => 1,
        RecordType::NS => 2,
        RecordType::MD => 3,
        RecordType::MF => 4,
        RecordType::CNAME => 5,
        RecordType::SOA => 6,
        RecordType::MB => 7,
        RecordType::MG => 8,
        RecordType::MR => 9,
        RecordType::NULL => 10,
        RecordType::WKS => 11,
        RecordType::PTR => 12,
        RecordType::HINFO => 13,
        RecordType::MINFO => 14,
        RecordType::MX => 15,
        RecordType::TXT => 16,
    }
}

/// The wire value of a record class.
pub open spec fn class_code(class: RecordClass) -> u16 {
    match class {
        RecordClass::IN => 1,
        RecordClass::CS => 2,
        RecordClass::CH => 3,
        RecordClass::HS => 4,
    }
}

/// Decoding a record type at `pos` of `buf`: only `A` is accepted.
pub open spec fn type_parsed(buf: Seq<u8>, pos: int) -> Parsed<RecordType> {
    Parsed {
        outcome: match number_at(buf, pos) {
            Ok(value) => if value == 1 {
                Ok(RecordType::A)
            } else {
                Err(ParseError::UnsupportedRecord { value })
            },
            Err(e) => Err(e),
        },
        next: after_number(buf, pos),
    }
}

/// Decoding a record class at `pos` of `buf`: only `IN` is accepted.
pub open spec fn class_parsed(buf: Seq<u8>, pos: int) -> Parsed<RecordClass> {
    Parsed {
        outcome: match number_at(buf, pos) {
            Ok(value) => if value == 1 {
                Ok(RecordClass::IN)
            } else {
                Err(ParseError::UnsupportedRecord { value })
            },
            Err(e) => Err(e),
        },
        next: after_number(buf, pos),
    }
}

impl View for RecordType {
    type V = RecordType;

    open spec fn view(&self) -> RecordType {
        *self
    }
}

impl View for RecordClass {
    type V = RecordClass;

    open spec fn view(&self) -> RecordClass {
        *self
    }
}

impl AsBytes for RecordType {
    open spec fn encodable(&self) -> bool {
        true
    }

    open spec fn wire(&self) -> Seq<u8> {
        be16(type_code(*self))
    }

    fn as_bytes(&self) -> (bytes: Vec<u8>) {
        let value: u16 = match self {
            RecordType::A => 1,
            RecordType::NS => 2,
            RecordType::MD => 3,
            RecordType::MF => 4,
            RecordType::CNAME => 5,
            RecordType::SOA => 6,
            RecordType::MB => 7,
            RecordType::MG => 8,
            RecordType::MR => 9,
            RecordType::NULL => 10,
            RecordType::WKS => 11,
            RecordType::PTR => 12,
            RecordType::HINFO => 13,
            RecordType::MINFO => 14,
            RecordType::MX => 15,
            RecordType::TXT => 16,
        };
        assert(value == type_code(*self));
        let pair = u16_to_be_bytes(value);
        let mut bytes: Vec<u8> = Vec::with_capacity(2);
        bytes.push(pair[0]);
        bytes.push(pair[1]);
        assert(bytes@ =~= pair@);
        assert(self.wire() == be16(value));
        bytes
    }
}

impl Parse for RecordType {
    open spec fn parsed(buf: Seq<u8>, pos: int) -> Parsed<RecordType> {
        type_parsed(buf, pos)
    }

    fn parse(reader: &mut DnsReader) -> (r: Result<Self, ParseError>) {
        let mut buf: [u8; 2] = [0;2];
        reader.read_exact(&mut buf)?;
        match u16_from_be_bytes(buf) {
            1 => Ok(RecordType::A),
            value => Err(ParseError::UnsupportedRecord { value }),
        }
    }
}

impl AsBytes for RecordClass {
    open spec fn encodable(&self) -> bool {
        true
    }

    open spec fn wire(&self) -> Seq<u8> {
        be16(class_code(*self))
    }

    fn as_bytes(&self) -> (bytes: Vec<u8>) {
        let value: u16 = match self {
            RecordClass::IN => 1,
            RecordClass::CS => 2,
            RecordClass::CH => 3,
            RecordClass::HS => 4,
        };
        assert(value == class_code(*self));
        let pair = u16_to_be_bytes(value);
        let mut bytes: Vec<u8> = Vec::with_capacity(2);
        bytes.push(pair[0]);
        bytes.push(pair[1]);
        assert(bytes@ =~= pair@);
        assert(self.wire() == be16(value));
        bytes
    }
}

impl Parse for RecordClass {
    open spec fn parsed(buf: Seq<u8>, pos: int) -> Parsed<RecordClass> {
        class_parsed(buf, pos)
    }

    fn parse(reader: &mut DnsReader) -> (r: Result<Self, ParseError>) {
        let mut buf: [u8; 2] = [0;2];
        reader.read_exact(&mut buf)?;
        match u16_from_be_bytes(buf) {
            1 => Ok(RecordClass::IN),
            value => Err(ParseError::UnsupportedRecord { value }),
        }
    }
}

} // verus!
