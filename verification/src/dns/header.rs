//! The fixed twelve-byte header of a DNS message.

use crate::common::bits::{
    be16, be16_value, bits16_msb, bits_msb, lemma_be16_round_trip, push_bits, u16_from_be_bytes,
    u16_to_be_bytes,
};
use crate::common::dns_reader::{after_number, in_bounds, number_at, overflow_at};
use crate::common::{AsBytes, DnsReader, Parse, ParseError, Parsed};
use vstd::arithmetic::power2::lemma2_to64;
use vstd::prelude::*;

verus! {

/// The header of a DNS message. On the wire it takes twelve bytes.
#[derive(Debug, Clone, Copy, PartialEq, Eq)]
pub struct Header {
    /// Packet identifier, 16 bits.
    pub id: u16,
    /// Query/response flag, 1 bit.
    pub qr: u8,
    /// Operation code, 4 bits.
    pub opcode: u8,
    /// Authoritative answer, 1 bit.
    pub aa: u8,
    /// Truncated, 1 bit.
    pub tc: u8,
    /// Recursion desired, 1 bit.
    pub rd: u8,
    /// Recursion available, 1 bit.
    pub ra: u8,
    /// Reserved, 3 bits.
    pub z: u8,
    /// Response code, 4 bits.
    pub rcode: u8,
    /// Number of questions.
    pub qdcount: u16,
    /// Number of answer records.
    pub ancount: u16,
    /// Number of authority records.
    pub nscount: u16,
    /// Number of additional records.
    pub arcount: u16,
}

/// The number of bytes of a header on the wire.
pub const HEADER_LEN: usize = 12;

/// The sixteen flag bits as a number: `qr(1) opcode(4) aa(1) tc(1) rd(1)
/// ra(1) z(3) rcode(4)`, most significant first. Of each field only as many
/// low bits as its width count.
pub open spec fn flags_word(h: Header) -> u16 {
    let qr = (h.qr as int % 2) * 0x8000;
    let opcode = (h.opcode as int % 16) * 0x800;
    let aa = (h.aa as int % 2) * 0x400;
    let tc = (h.tc as int % 2) * 0x200;
    let rd = (h.rd as int % 2) * 0x100;
    let ra = (h.ra as int % 2) * 0x80;
    let z = (h.z as int % 8) * 0x10;
    let rcode = h.rcode as int % 16;
    (qr + opcode + aa + tc + rd + ra + z + rcode) as u16
}

/// The twelve bytes of a header.
pub open spec fn header_wire(h: Header) -> Seq<u8> {
    be16(h.id) + be16(flags_word(h)) + be16(h.qdcount) + be16(h.ancount) + be16(h.nscount) + be16(
        h.arcount,
    )
}

/// The header `h` with its eight flag fields taken from the sixteen bits of
/// `word`.
pub open spec fn with_flags(h: Header, word: u16) -> Header {
    Header {
        qr: (word / 0x8000) as u8,
        opcode: (word / 0x800 % 16) as u8,
        aa: (word / 0x400 % 2) as u8,
        tc: (word / 0x200 % 2) as u8,
        rd: (word / 0x100 % 2) as u8,
        ra: (word / 0x80 % 2) as u8,
        z: (word / 0x10 % 8) as u8,
        rcode: (word % 16) as u8,
        ..h
    }
}

/// The header that twelve bytes stand for.
pub open spec fn header_of(bytes: Seq<u8>) -> Header
    recommends
        bytes.len() == 12,
{
    with_flags(
        Header {
            id: be16_value(bytes[0], bytes[1]),
            qr: 0,
            opcode: 0,
            aa: 0,
            tc: 0,
            rd: 0,
            ra: 0,
            z: 0,
            rcode: 0,
            qdcount: be16_value(bytes[4], bytes[5]),
            ancount: be16_value(bytes[6], bytes[7]),
            nscount: be16_value(bytes[8], bytes[9]),
            arcount: be16_value(bytes[10], bytes[11]),
        },
        be16_value(bytes[2], bytes[3]),
    )
}

/// Whether every flag field of the header fits the width it has on the wire.
pub open spec fn fits_wire(h: Header) -> bool {
    &&& h.qr < 2
    &&& h.opcode < 16
    &&& h.aa < 2
    &&& h.tc < 2
    &&& h.rd < 2
    &&& h.ra < 2
    &&& h.z < 8
    &&& h.rcode < 16
}

/// A header is read as six two-byte numbers. This is the place of the first
/// of them that does not fit into a buffer of `len` bytes, for a header that
/// starts at `pos` and does not fit as a whole.
pub open spec fn first_short_field(len: nat, pos: int) -> int {
    if !in_bounds(len, pos, 2) {
        pos
    } else if !in_bounds(len, pos + 2, 2) {
        pos + 2
    } else if !in_bounds(len, pos + 4, 2) {
        pos + 4
    } else if !in_bounds(len, pos + 6, 2) {
        pos + 6
    } else if !in_bounds(len, pos + 8, 2) {
        pos + 8
    } else {
        pos + 10
    }
}

/// Decoding a header at `pos` of `buf`.
pub open spec fn header_parsed(buf: Seq<u8>, pos: int) -> Parsed<Header> {
    if in_bounds(buf.len(), pos, 12) {
        Parsed { outcome: Ok(header_of(buf.subrange(pos, pos + 12))), next: pos + 12 }
    } else {
        let at = first_short_field(buf.len(), pos);
        Parsed { outcome: Err(overflow_at(buf.len(), at, 2)), next: at }
    }
}

impl View for Header {
    type V = Header;

    open spec fn view(&self) -> Header {
        *self
    }
}

impl Header {
    /// The header with every field zero.
    pub open spec fn default_spec() -> Header {
        Header {
            id: 0,
            qr: 0,
            opcode: 0,
            aa: 0,
            tc: 0,
            rd: 0,
            ra: 0,
            z: 0,
            rcode: 0,
            qdcount: 0,
            ancount: 0,
            nscount: 0,
            arcount: 0,
        }
    }
}

impl Default for Header {
    /// The header with every field zero.
    fn default() -> (h: Self)
        ensures
            h == Header::default_spec(),
    {
        Header {
            id: 0,
            qr: 0,
            opcode: 0,
            aa: 0,
            tc: 0,
            rd: 0,
            ra: 0,
            z: 0,
            rcode: 0,
            qdcount: 0,
            ancount: 0,
            nscount: 0,
            arcount: 0,
        }
    }
}

impl AsBytes for Header {
    open spec fn encodable(&self) -> bool {
        true
    }

    open spec fn wire(&self) -> Seq<u8> {
        header_wire(*self)
    }

    fn as_bytes(&self) -> (bytes: Vec<u8>) {
        let id = u16_to_be_bytes(self.id);
        let flags = self.flags_as_bytes();
        let qdcount = u16_to_be_bytes(self.qdcount);
        let ancount = u16_to_be_bytes(self.ancount);
        let nscount = u16_to_be_bytes(self.nscount);
        let arcount = u16_to_be_bytes(self.arcount);
        let mut bytes: Vec<u8> = Vec::with_capacity(HEADER_LEN);
        bytes.push(id[0]);
        bytes.push(id[1]);
        bytes.push(flags[0]);
        bytes.push(flags[1]);
        bytes.push(qdcount[0]);
        bytes.push(qdcount[1]);
        bytes.push(ancount[0]);
        bytes.push(ancount[1]);
        bytes.push(nscount[0]);
        bytes.push(nscount[1]);
        bytes.push(arcount[0]);
        bytes.push(arcount[1]);
        assert(bytes@ =~= header_wire(*self));
        bytes
    }
}

impl Parse for Header {
    open spec fn parsed(buf: Seq<u8>, pos: int) -> Parsed<Header> {
        header_parsed(buf, pos)
    }

    fn parse(reader: &mut DnsReader) -> (r: Result<Self, ParseError>) {
        let ghost buf = reader.buf@;
        let ghost pos = reader.cur_pos as int;
        let header = Header::default();
        let header = header.read_id(reader)?;
        let header = header.read_flags(reader)?;
        let header = header.read_qd_count(reader)?;
        let header = header.read_an_count(reader)?;
        let header = header.read_ns_count(reader)?;
        let header = header.read_ar_count(reader)?;
        assert(header == header_of(buf.subrange(pos, pos + 12)));
        Ok(header)
    }
}

/// The low `width` bits of `value`.
spec fn low_field(value: u16, width: u16) -> u16 {
    value & (((1u16 << width) - 1) as u16)
}

/// Appends the `width` low bits of `value` to the bits of `buf`, the most
/// significant of them first.
fn push_field(buf: &mut u16, value: u8, width: u8)
    requires
        1 <= width <= 8,
    ensures
        *final(buf) == (*old(buf) << (width as u16)) | low_field(value as u16, width as u16),
{
    let ghost start: u16 = *buf;
    let ghost v16: u16 = value as u16;
    let ghost w16: u16 = width as u16;
    let ghost field: u16 = low_field(v16, w16);
    let mut rest: u8 = value << (8 - width);
    let mut i: u8 = 0;
    assert(start == (start << 0u16) | (field >> w16)) by (bit_vector)
        requires
            1 <= w16 <= 8,
            field == low_field(v16, w16),
    ;
    while i < width
        invariant
            1 <= width <= 8,
            i <= width,
            v16 == value as u16,
            w16 == width as u16,
            field == low_field(v16, w16),
            rest == value << ((8 - width + i) as u8),
            *buf == (start << (i as u16)) | (field >> ((width - i) as u16)),
        decreases width - i,
    {
        let ghost before: u16 = *buf;
        let ghost old_rest: u8 = rest;
        let ghost k: u8 = (8 - width + i) as u8;
        let ghost d: u8 = (width - i - 1) as u8;
        let ghost d16: u16 = d as u16;
        let ghost i16: u16 = i as u16;
        proof {
            lemma2_to64();
        }
        let bit = bits_msb(rest, 1);
        rest = rest << 1;
        push_bits(buf, bit);
        let ghost bit16: u16 = bit as u16;
        let ghost after: u16 = *buf;
        proof {
            lemma2_to64();
            assert(bit == old_rest / 128);
            assert(old_rest << 1u8 == value << ((k + 1) as u8) && old_rest / 128 == (value >> d)
                & 1u8) by (bit_vector)
                requires
                    old_rest == value << k,
                    k + d == 7,
            ;
            assert(bit16 == (v16 >> d16) & 1u16) by (bit_vector)
                requires
                    v16 == value as u16,
                    d16 == d as u16,
                    d < 8,
                    bit16 == ((value >> d) & 1u8) as u16,
            ;
            assert(after == (before << 1u16) | bit16) by (bit_vector)
                requires
                    bit16 <= 1,
                    after as int == (before as int * 2) % 0x1_0000 + bit16 as int,
            ;
            assert(after == (start << ((i16 + 1) as u16)) | (field >> d16)) by (bit_vector)
                requires
                    field == low_field(v16, w16),
                    bit16 == (v16 >> d16) & 1u16,
                    d16 < w16 <= 8,
                    i16 < 8,
                    before == (start << i16) | (field >> ((d16 + 1) as u16)),
                    after == (before << 1u16) | bit16,
            ;
        }
        i += 1;
    }
    assert(field >> 0u16 == field) by (bit_vector);
}

impl Header {
    /// Reads the identifier at the cursor.
    fn read_id(self, reader: &mut DnsReader) -> (r: Result<Self, ParseError>)
        ensures
            final(reader).buf@ == old(reader).buf@,
            final(reader).cur_pos == after_number(old(reader).buf@, old(reader).cur_pos as int),
            match number_at(old(reader).buf@, old(reader).cur_pos as int) {
                Ok(n) => r == Ok::<Header, ParseError>(Header { id: n, ..self }),
                Err(e) => r == Err::<Header, ParseError>(e),
            },
    {
        let id = Self::read_two_byte_number(reader)?;
        Ok(Header { id, ..self })
    }

    /// Reads the number of questions at the cursor.
    fn read_qd_count(self, reader: &mut DnsReader) -> (r: Result<Self, ParseError>)
        ensures
            final(reader).buf@ == old(reader).buf@,
            final(reader).cur_pos == after_number(old(reader).buf@, old(reader).cur_pos as int),
            match number_at(old(reader).buf@, old(reader).cur_pos as int) {
                Ok(n) => r == Ok::<Header, ParseError>(Header { qdcount: n, ..self }),
                Err(e) => r == Err::<Header, ParseError>(e),
            },
    {
        let qdcount = Self::read_two_byte_number(reader)?;
        Ok(Header { qdcount, ..self })
    }

    /// Reads the number of answers at the cursor.
    fn read_an_count(self, reader: &mut DnsReader) -> (r: Result<Self, ParseError>)
        ensures
            final(reader).buf@ == old(reader).buf@,
            final(reader).cur_pos == after_number(old(reader).buf@, old(reader).cur_pos as int),
            match number_at(old(reader).buf@, old(reader).cur_pos as int) {
                Ok(n) => r == Ok::<Header, ParseError>(Header { ancount: n, ..self }),
                Err(e) => r == Err::<Header, ParseError>(e),
            },
    {
        let ancount = Self::read_two_byte_number(reader)?;
        Ok(Header { ancount, ..self })
    }

    /// Reads the number of authority records at the cursor.
    fn read_ns_count(self, reader: &mut DnsReader) -> (r: Result<Self, ParseError>)
        ensures
            final(reader).buf@ == old(reader).buf@,
            final(reader).cur_pos == after_number(old(reader).buf@, old(reader).cur_pos as int),
            match number_at(old(reader).buf@, old(reader).cur_pos as int) {
                Ok(n) => r == Ok::<Header, ParseError>(Header { nscount: n, ..self }),
                Err(e) => r == Err::<Header, ParseError>(e),
            },
    {
        let nscount = Self::read_two_byte_number(reader)?;
        Ok(Header { nscount, ..self })
    }

    /// Reads the number of additional records at the cursor.
    fn read_ar_count(self, reader: &mut DnsReader) -> (r: Result<Self, ParseError>)
        ensures
            final(reader).buf@ == old(reader).buf@,
            final(reader).cur_pos == after_number(old(reader).buf@, old(reader).cur_pos as int),
            match number_at(old(reader).buf@, old(reader).cur_pos as int) {
                Ok(n) => r == Ok::<Header, ParseError>(Header { arcount: n, ..self }),
                Err(e) => r == Err::<Header, ParseError>(e),
            },
    {
        let arcount = Self::read_two_byte_number(reader)?;
        Ok(Header { arcount, ..self })
    }

    /// Reads a big-endian 16-bit number at the cursor.
    pub fn read_two_byte_number(reader: &mut DnsReader) -> (r: Result<u16, ParseError>)
        ensures
            final(reader).buf@ == old(reader).buf@,
            final(reader).cur_pos == after_number(old(reader).buf@, old(reader).cur_pos as int),
            r == number_at(old(reader).buf@, old(reader).cur_pos as int),
    {
        let mut buf: [u8; 2] = [0;2];
        reader.read_exact(&mut buf)?;
        Ok(u16_from_be_bytes(buf))
    }

    /// Reads the two flag bytes at the cursor and takes them apart.
    fn read_flags(self, reader: &mut DnsReader) -> (r: Result<Self, ParseError>)
        ensures
            final(reader).buf@ == old(reader).buf@,
            final(reader).cur_pos == after_number(old(reader).buf@, old(reader).cur_pos as int),
            match number_at(old(reader).buf@, old(reader).cur_pos as int) {
                Ok(n) => r == Ok::<Header, ParseError>(with_flags(self, n)),
                Err(e) => r == Err::<Header, ParseError>(e),
            },
    {
        let word = Self::read_two_byte_number(reader)?;
        Ok(self.set_flags(word))
    }

    /// Takes the sixteen flag bits of `word` apart into the eight flag
    /// fields.
    fn set_flags(self, word: u16) -> (h: Self)
        ensures
            h == with_flags(self, word),
    {
        let mut flags = word;
        proof {
            lemma2_to64();
        }
        let qr = bits16_msb(flags, 1);
        flags = flags << 1;
        let ghost f1 = flags;
        let opcode = bits16_msb(flags, 4);
        flags = flags << 4;
        let ghost f2 = flags;
        let aa = bits16_msb(flags, 1);
        flags = flags << 1;
        let ghost f3 = flags;
        let tc = bits16_msb(flags, 1);
        flags = flags << 1;
        let ghost f4 = flags;
        let rd = bits16_msb(flags, 1);
        flags = flags << 1;
        let ghost f5 = flags;
        let ra = bits16_msb(flags, 1);
        flags = flags << 1;
        let ghost f6 = flags;
        let z = bits16_msb(flags, 3);
        flags = flags << 3;
        let ghost f7 = flags;
        let rcode = bits16_msb(flags, 4);

        assert(qr == word / 0x8000 && opcode == word / 0x800 % 16 && aa == word / 0x400 % 2 && tc
            == word / 0x200 % 2 && rd == word / 0x100 % 2 && ra == word / 0x80 % 2 && z == word
            / 0x10 % 8 && rcode == word % 16) by (bit_vector)
            requires
                f1 == word << 1u16,
                f2 == f1 << 4u16,
                f3 == f2 << 1u16,
                f4 == f3 << 1u16,
                f5 == f4 << 1u16,
                f6 == f5 << 1u16,
                f7 == f6 << 3u16,
                qr == word / 0x8000,
                opcode == f1 / 0x1000,
                aa == f2 / 0x8000,
                tc == f3 / 0x8000,
                rd == f4 / 0x8000,
                ra == f5 / 0x8000,
                z == f6 / 0x2000,
                rcode == f7 / 0x1000,
        ;
        Header {
            qr: qr as u8,
            opcode: opcode as u8,
            aa: aa as u8,
            tc: tc as u8,
            rd: rd as u8,
            ra: ra as u8,
            z: z as u8,
            rcode: rcode as u8,
            ..self
        }
    }

    /// The two flag bytes of the header, most significant first.
    pub fn flags_as_bytes(&self) -> (bytes: [u8; 2])
        ensures
            bytes@ == be16(flags_word(*self)),
    {
        let mut buf: u16 = 0;
        push_field(&mut buf, self.qr, 1);
        let ghost b1 = buf;
        push_field(&mut buf, self.opcode, 4);
        let ghost b2 = buf;
        push_field(&mut buf, self.aa, 1);
        let ghost b3 = buf;
        push_field(&mut buf, self.tc, 1);
        let ghost b4 = buf;
        push_field(&mut buf, self.rd, 1);
        let ghost b5 = buf;
        push_field(&mut buf, self.ra, 1);
        let ghost b6 = buf;
        push_field(&mut buf, self.z, 3);
        let ghost b7 = buf;
        push_field(&mut buf, self.rcode, 4);
        proof {
            let qr: u16 = self.qr as u16;
            let opcode: u16 = self.opcode as u16;
            let aa: u16 = self.aa as u16;
            let tc: u16 = self.tc as u16;
            let rd: u16 = self.rd as u16;
            let ra: u16 = self.ra as u16;
            let z: u16 = self.z as u16;
            let rcode: u16 = self.rcode as u16;
            assert(buf as int == (qr as int % 2) * 0x8000 + (opcode as int % 16) * 0x800 + (aa as int
                % 2) * 0x400 + (tc as int % 2) * 0x200 + (rd as int % 2) * 0x100 + (ra as int % 2)
                * 0x80 + (z as int % 8) * 0x10 + (rcode as int % 16)) by (bit_vector)
                requires
                    b1 == (0u16 << 1u16) | low_field(qr, 1u16),
                    b2 == (b1 << 4u16) | low_field(opcode, 4u16),
                    b3 == (b2 << 1u16) | low_field(aa, 1u16),
                    b4 == (b3 << 1u16) | low_field(tc, 1u16),
                    b5 == (b4 << 1u16) | low_field(rd, 1u16),
                    b6 == (b5 << 1u16) | low_field(ra, 1u16),
                    b7 == (b6 << 3u16) | low_field(z, 3u16),
                    buf == (b7 << 4u16) | low_field(rcode, 4u16),
                    qr < 256,
                    opcode < 256,
                    aa < 256,
                    tc < 256,
                    rd < 256,
                    ra < 256,
                    z < 256,
                    rcode < 256,
            ;
        }
        u16_to_be_bytes(buf)
    }
}

/// Taking the flag bits of a header apart gives back its flag fields, when
/// each of them fits its width.
pub proof fn lemma_flags_round_trip(h: Header)
    requires
        fits_wire(h),
    ensures
        with_flags(h, flags_word(h)) == h,
{
    let word = flags_word(h);
    let qr: u16 = h.qr as u16;
    let opcode: u16 = h.opcode as u16;
    let aa: u16 = h.aa as u16;
    let tc: u16 = h.tc as u16;
    let rd: u16 = h.rd as u16;
    let ra: u16 = h.ra as u16;
    let z: u16 = h.z as u16;
    let rcode: u16 = h.rcode as u16;
    assert(word / 0x8000 == qr && word / 0x800 % 16 == opcode && word / 0x400 % 2 == aa && word
        / 0x200 % 2 == tc && word / 0x100 % 2 == rd && word / 0x80 % 2 == ra && word / 0x10 % 8
        == z && word % 16 == rcode) by (bit_vector)
        requires
            qr < 2,
            opcode < 16,
            aa < 2,
            tc < 2,
            rd < 2,
            ra < 2,
            z < 8,
            rcode < 16,
            word as int == qr * 0x8000 + opcode * 0x800 + aa * 0x400 + tc * 0x200 + rd * 0x100 + ra
                * 0x80 + z * 0x10 + rcode,
    ;
}

/// Decoding the bytes of a header gives the header back, wherever they stand
/// in a buffer, and leaves the cursor behind them: no field is lost, provided
/// that each flag field fits its width.
pub proof fn lemma_header_round_trip(h: Header, before: Seq<u8>, after: Seq<u8>)
    requires
        fits_wire(h),
    ensures
        header_wire(h).len() == 12,
        header_parsed(before + header_wire(h) + after, before.len() as int) == (Parsed {
            outcome: Ok::<Header, ParseError>(h),
            next: (before.len() + 12) as int,
        }),
{
    let buf = before + header_wire(h) + after;
    let pos = before.len() as int;
    let bytes = buf.subrange(pos, pos + 12);
    assert(bytes =~= header_wire(h));
    lemma_flags_round_trip(h);
    lemma_be16_round_trip(h.id);
    lemma_be16_round_trip(flags_word(h));
    let back = header_of(bytes);
    assert(back.id == h.id);
    assert(back.qdcount == h.qdcount);
    assert(back.ancount == h.ancount);
    assert(back.nscount == h.nscount);
    assert(back.arcount == h.arcount);
    assert(be16_value(bytes[2], bytes[3]) == flags_word(h));
}

} // verus!
