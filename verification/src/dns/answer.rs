//! The answer section of a message: resource records with their data.

use crate::common::bits::{
    be16, be32, be32_value, lemma_be32_round_trip, u16_from_be_bytes, u16_to_be_bytes, u32_from_be_bytes,
    u32_to_be_bytes,
};
use crate::common::dns_reader::{in_bounds, number_at, overflow_at};
use crate::common::{AsBytes, DnsReader, Parse, ParseError, Parsed};
use crate::dns::label::{
    join_dots, lemma_dot_at, lemma_join_first, lemma_name_round_trip, name_parsed, name_wire,
    split_dots, valid_name, Label,
};
use crate::dns::{class_code, class_parsed, type_code, type_parsed, RecordClass, RecordType};
use vstd::prelude::*;
use vstd::string::StringExecFns;

verus! {

/// The data of an address record, written as decimal numbers with dots
/// between them: `8.8.8.8`.
#[derive(Debug)]
pub struct RData(pub String);

impl View for RData {
    type V = Seq<char>;

    open spec fn view(&self) -> Seq<char> {
        self.0@
    }
}

impl Clone for RData {
    fn clone(&self) -> (copy: Self)
        ensures
            copy@ == self@,
    {
        RData(self.0.clone())
    }
}

/// The decimal digit for a number below ten.
pub open spec fn digit_char(d: nat) -> char
    recommends
        d < 10,
{
    ((48 + d) as u8) as char
}

/// A number written in decimal, without leading zeros.
pub open spec fn decimal(n: nat) -> Seq<char>
    decreases n,
{
    if n < 10 {
        seq![digit_char(n)]
    } else {
        decimal(n / 10).push(digit_char(n % 10))
    }
}

/// Bytes written as decimal numbers with dots between them.
pub open spec fn dotted(bytes: Seq<u8>) -> Seq<char> {
    join_dots(bytes.map_values(|b: u8| decimal(b as nat)))
}

/// Whether a character is a decimal digit.
pub open spec fn is_digit(c: char) -> bool {
    '0' <= c <= '9'
}

/// The number that a text of decimal digits stands for.
pub open spec fn digits_value(digits: Seq<char>) -> nat
    decreases digits.len(),
{
    if digits.len() == 0 {
        0
    } else {
        digits_value(digits.drop_last()) * 10 + (digits.last() as u32 - 48) as nat
    }
}

/// A text without the plus sign that it may begin with.
pub open spec fn without_sign(text: Seq<char>) -> Seq<char> {
    if text.len() > 0 && text[0] == '+' {
        text.skip(1)
    } else {
        text
    }
}

/// The byte that a text stands for: decimal digits, at least one, with or
/// without a plus sign in front, whose number is at most 255. Leading zeros
/// are accepted. Any other text stands for no byte.
pub open spec fn octet_of(text: Seq<char>) -> Option<u8> {
    let digits = without_sign(text);
    if digits.len() > 0 && (forall|i: int| 0 <= i < digits.len() ==> is_digit(#[trigger] digits[i]))
        && digits_value(digits) <= 255 {
        Some(digits_value(digits) as u8)
    } else {
        None
    }
}

/// The number of bytes of an address.
pub const ADDRESS_LEN: usize = 4;

/// The four bytes that a dotted text stands for, if it has exactly four
/// parts between its dots and each of them stands for a byte.
pub open spec fn octets_of(text: Seq<char>) -> Option<Seq<u8>> {
    let parts = split_dots(text);
    if parts.len() == ADDRESS_LEN && (forall|i: int|
        0 <= i < parts.len() ==> (#[trigger] octet_of(parts[i])) is Some) {
        Some(parts.map_values(|part: Seq<char>| octet_of(part)->0))
    } else {
        None
    }
}

/// Decoding record data at `pos` of `buf`: a two-byte length, then as many
/// bytes, which are written out as dotted decimal text.
pub open spec fn rdata_parsed(buf: Seq<u8>, pos: int) -> Parsed<Seq<char>> {
    match number_at(buf, pos) {
        Err(e) => Parsed { outcome: Err(e), next: pos },
        Ok(length) => if !in_bounds(buf.len(), pos + 2, length as nat) {
            Parsed { outcome: Err(overflow_at(buf.len(), pos + 2, length as nat)), next: pos + 2 }
        } else {
            Parsed {
                outcome: Ok(dotted(buf.subrange(pos + 2, pos + 2 + length))),
                next: pos + 2 + length,
            }
        },
    }
}

/// The texts of a list of character vectors.
pub open spec fn part_texts(parts: Seq<Vec<char>>) -> Seq<Seq<char>> {
    parts.map_values(|part: Vec<char>| part@)
}

/// The text of one decimal digit.
fn digit_text(d: u8) -> (text: &'static str)
    requires
        d < 10,
    ensures
        text@ == seq![digit_char(d as nat)],
{
    proof {
        reveal_strlit("0");
        reveal_strlit("1");
        reveal_strlit("2");
        reveal_strlit("3");
        reveal_strlit("4");
        reveal_strlit("5");
        reveal_strlit("6");
        reveal_strlit("7");
        reveal_strlit("8");
        reveal_strlit("9");
    }
    let text = match d {
        0 => "0",
        1 => "1",
        2 => "2",
        3 => "3",
        4 => "4",
        5 => "5",
        6 => "6",
        7 => "7",
        8 => "8",
        _ => "9",
    };
    assert(text@ =~= seq![digit_char(d as nat)]);
    text
}

/// Appends a byte in decimal to a text.
fn append_decimal(text: &mut String, byte: u8)
    ensures
        final(text)@ == old(text)@ + decimal(byte as nat),
{
    let ghost before = text@;
    proof {
        reveal_with_fuel(decimal, 3);
    }
    if byte >= 100 {
        text.append(digit_text(byte / 100));
    }
    if byte >= 10 {
        text.append(digit_text(byte / 10 % 10));
    }
    text.append(digit_text(byte % 10));
    assert(text@ =~= before + decimal(byte as nat));
}

/// Cuts a text at its dots.
fn split_at_dots(text: &str) -> (parts: Vec<Vec<char>>)
    ensures
        part_texts(parts@) == split_dots(text@),
{
    let ghost whole = text@;
    let mut parts: Vec<Vec<char>> = Vec::new();
    let mut part: Vec<char> = Vec::new();
    let ghost mut from: int = 0;
    proof {
        assert(whole.skip(0) =~= whole);
        assert(part_texts(parts@) + split_dots(whole) =~= split_dots(whole));
        assert(whole.subrange(0, 0) =~= Seq::<char>::empty());
    }
    for c in it: text.chars()
        invariant
            it.seq() == whole,
            0 <= from <= it.index() <= whole.len(),
            forall|i: int| from <= i < it.index() ==> whole[i] != '.',
            split_dots(whole) == part_texts(parts@) + split_dots(whole.skip(from)),
            part@ == whole.subrange(from, it.index() as int),
    {
        let ghost at = it.index() as int;
        if c == '.' {
            proof {
                let rest = whole.skip(from);
                lemma_dot_at(rest, at - from);
                assert(rest.take(at - from) =~= whole.subrange(from, at));
                assert(rest.skip(at - from + 1) =~= whole.skip(at + 1));
                assert(whole.subrange(at + 1, at + 1) =~= Seq::<char>::empty());
                assert(part_texts(parts@.push(part)) =~= part_texts(parts@).push(part@));
                assert(part_texts(parts@) + (seq![part@] + split_dots(whole.skip(at + 1)))
                    =~= part_texts(parts@).push(part@) + split_dots(whole.skip(at + 1)));
            }
            parts.push(part);
            part = Vec::new();
            proof {
                from = at + 1;
            }
        } else {
            proof {
                assert(whole.subrange(from, at + 1) =~= whole.subrange(from, at).push(c));
            }
            part.push(c);
        }
    }
    proof {
        let rest = whole.skip(from);
        lemma_dot_at(rest, rest.len() as int);
        assert(rest =~= whole.subrange(from, whole.len() as int));
        assert(part_texts(parts@.push(part)) =~= part_texts(parts@).push(part@));
        assert(part_texts(parts@) + seq![part@] =~= part_texts(parts@).push(part@));
    }
    parts.push(part);
    parts
}

/// A longer text of digits stands for no smaller number than its beginning.
proof fn lemma_digits_value_grows(digits: Seq<char>, k: int)
    requires
        0 <= k <= digits.len(),
        forall|i: int| 0 <= i < digits.len() ==> is_digit(#[trigger] digits[i]),
    ensures
        digits_value(digits.take(k)) <= digits_value(digits),
    decreases digits.len() - k,
{
    if k == digits.len() {
        assert(digits.take(k) =~= digits);
    } else {
        let shorter = digits.drop_last();
        assert(is_digit(digits[digits.len() - 1]));
        assert forall|i: int| 0 <= i < shorter.len() implies is_digit(#[trigger] shorter[i]) by {
            assert(shorter[i] == digits[i]);
        }
        lemma_digits_value_grows(shorter, k);
        assert(shorter.take(k) =~= digits.take(k));
    }
}

/// Reads a part of a dotted text as a byte.
fn octet_from(part: &Vec<char>) -> (octet: Option<u8>)
    ensures
        octet == octet_of(part@),
{
    let n = part.len();
    let start: usize = if n > 0 && part[0] == '+' {
        1
    } else {
        0
    };
    let ghost digits = without_sign(part@);
    assert(digits.len() == n - start);
    if start == n {
        return None;
    }
    let mut value: u16 = 0;
    let mut i: usize = start;
    assert(digits.take(0) =~= Seq::<char>::empty());
    while i < n
        invariant
            start <= i <= n,
            n == part@.len(),
            digits == without_sign(part@),
            digits == part@.skip(start as int),
            forall|j: int| 0 <= j < i - start ==> is_digit(#[trigger] digits[j]),
            value == digits_value(digits.take(i - start)),
            value <= 255,
        decreases n - i,
    {
        let c = part[i];
        assert(c == digits[i - start]);
        if !('0' <= c && c <= '9') {
            assert(!is_digit(digits[i - start]));
            return None;
        }
        let d: u16 = (c as u32 - 48) as u16;
        proof {
            assert(digits.take(i - start + 1).drop_last() =~= digits.take(i - start));
        }
        value = value * 10 + d;
        if value > 255 {
            proof {
                if forall|j: int| 0 <= j < digits.len() ==> is_digit(#[trigger] digits[j]) {
                    lemma_digits_value_grows(digits, i - start + 1);
                }
                assert(octet_of(part@) is None);
            }
            return None;
        }
        i += 1;
    }
    assert(digits.take(n - start) =~= digits);
    Some(value as u8)
}

impl RData {
    /// Writes bytes out as dotted decimal text.
    pub fn from_octets(bytes: &[u8]) -> (rdata: Self)
        ensures
            rdata@ == dotted(bytes@),
    {
        let ghost texts = bytes@.map_values(|b: u8| decimal(b as nat));
        let mut text = String::new();
        let mut i: usize = 0;
        while i < bytes.len()
            invariant
                i <= bytes.len(),
                texts == bytes@.map_values(|b: u8| decimal(b as nat)),
                text@ == join_dots(texts.take(i as int)),
            decreases bytes.len() - i,
        {
            proof {
                let now = texts.take(i + 1);
                assert(now.drop_last() =~= texts.take(i as int));
                assert(now.last() == decimal(bytes@[i as int] as nat));
                reveal_strlit(".");
                assert("."@ =~= seq!['.']);
                if i == 0 {
                    assert(text@ + decimal(bytes@[0] as nat) =~= decimal(bytes@[0] as nat));
                }
            }
            if i > 0 {
                text.append(".");
            }
            append_decimal(&mut text, bytes[i]);
            i += 1;
        }
        assert(texts.take(bytes.len() as int) =~= texts);
        RData(text)
    }

    /// The four bytes that the text stands for, if it stands for any.
    pub fn octets(&self) -> (octets: Option<Vec<u8>>)
        ensures
            octets is Some <==> octets_of(self@) is Some,
            octets is Some ==> octets->0@ == octets_of(self@)->0,
    {
        let parts = split_at_dots(self.0.as_str());
        let ghost texts = part_texts(parts@);
        if parts.len() != ADDRESS_LEN {
            return None;
        }
        let mut octets: Vec<u8> = Vec::with_capacity(ADDRESS_LEN);
        let mut i: usize = 0;
        while i < parts.len()
            invariant
                i <= parts.len(),
                texts == part_texts(parts@),
                texts == split_dots(self@),
                octets@.len() == i,
                forall|j: int| 0 <= j < i ==> octet_of(texts[j]) == Some(#[trigger] octets@[j]),
            decreases parts.len() - i,
        {
            match octet_from(&parts[i]) {
                Some(octet) => {
                    octets.push(octet);
                },
                None => {
                    assert(octet_of(texts[i as int]) is None);
                    return None;
                },
            }
            i += 1;
        }
        assert forall|j: int| 0 <= j < texts.len() implies (#[trigger] octet_of(texts[j])) is Some by {
            assert(octet_of(texts[j]) == Some(octets@[j]));
        }
        assert(octets@ =~= texts.map_values(|part: Seq<char>| octet_of(part)->0));
        Some(octets)
    }
}

impl AsBytes for RData {
    /// Record data has a wire form when its text stands for four bytes.
    open spec fn encodable(&self) -> bool {
        octets_of(self@) is Some
    }

    /// The four bytes, without a length in front.
    open spec fn wire(&self) -> Seq<u8> {
        octets_of(self@)->0
    }

    fn as_bytes(&self) -> (bytes: Vec<u8>) {
        self.octets().unwrap()
    }
}

impl Parse for RData {
    open spec fn parsed(buf: Seq<u8>, pos: int) -> Parsed<Seq<char>> {
        rdata_parsed(buf, pos)
    }

    fn parse(reader: &mut DnsReader) -> (r: Result<Self, ParseError>) {
        let mut buf: [u8; 2] = [0;2];
        reader.read_exact(&mut buf)?;
        let rd_length = u16_from_be_bytes(buf);
        let mut rdata: Vec<u8> = vec![0u8; rd_length as usize];
        reader.read_exact(rdata.as_mut_slice())?;
        Ok(RData::from_octets(rdata.as_slice()))
    }
}

/// One resource record of the answer section.
#[derive(Debug)]
pub struct Answer {
    pub name: Label,
    pub typez: RecordType,
    pub class: RecordClass,
    /// How long the record may be kept, in seconds.
    pub ttl: u32,
    pub rdata: RData,
}

/// What an answer says, with its name and its data as plain text.
pub struct AnswerView {
    pub name: Seq<char>,
    pub typez: RecordType,
    pub class: RecordClass,
    pub ttl: u32,
    pub rdata: Seq<char>,
}

impl View for Answer {
    type V = AnswerView;

    open spec fn view(&self) -> AnswerView {
        AnswerView {
            name: self.name@,
            typez: self.typez,
            class: self.class,
            ttl: self.ttl,
            rdata: self.rdata@,
        }
    }
}

impl Clone for Answer {
    fn clone(&self) -> (copy: Self)
        ensures
            copy@ == self@,
    {
        Answer {
            name: self.name.clone(),
            typez: self.typez,
            class: self.class,
            ttl: self.ttl,
            rdata: self.rdata.clone(),
        }
    }
}

/// The wire form of an answer whose data stands for four bytes: name, type,
/// class, time to live, the length of the data, the data.
pub open spec fn answer_wire(a: AnswerView) -> Seq<u8> {
    let octets = octets_of(a.rdata)->0;
    name_wire(a.name) + be16(type_code(a.typez)) + be16(class_code(a.class)) + be32(a.ttl) + be16(
        octets.len() as u16,
    ) + octets
}

/// What reading a big-endian four-byte number at `pos` of `buf` gives, and
/// where it leaves the cursor.
pub open spec fn ttl_parsed(buf: Seq<u8>, pos: int) -> Parsed<u32> {
    if in_bounds(buf.len(), pos, 4) {
        Parsed {
            outcome: Ok(be32_value(buf[pos], buf[pos + 1], buf[pos + 2], buf[pos + 3])),
            next: pos + 4,
        }
    } else {
        Parsed { outcome: Err(overflow_at(buf.len(), pos, 4)), next: pos }
    }
}

/// Decoding an answer at `pos` of `buf`: name, type, class, time to live and
/// data, one behind the other. The first of them that fails ends the
/// decoding.
pub open spec fn answer_parsed(buf: Seq<u8>, pos: int) -> Parsed<AnswerView> {
    let name = name_parsed(buf, pos);
    match name.outcome {
        Err(e) => Parsed { outcome: Err(e), next: name.next },
        Ok(text) => {
            let typez = type_parsed(buf, name.next);
            match typez.outcome {
                Err(e) => Parsed { outcome: Err(e), next: typez.next },
                Ok(t) => {
                    let class = class_parsed(buf, typez.next);
                    match class.outcome {
                        Err(e) => Parsed { outcome: Err(e), next: class.next },
                        Ok(c) => {
                            let ttl = ttl_parsed(buf, class.next);
                            match ttl.outcome {
                                Err(e) => Parsed { outcome: Err(e), next: ttl.next },
                                Ok(seconds) => {
                                    let rdata = rdata_parsed(buf, ttl.next);
                                    match rdata.outcome {
                                        Err(e) => Parsed { outcome: Err(e), next: rdata.next },
                                        Ok(data) => Parsed {
                                            outcome: Ok(
                                                AnswerView {
                                                    name: text,
                                                    typez: t,
                                                    class: c,
                                                    ttl: seconds,
                                                    rdata: data,
                                                },
                                            ),
                                            next: rdata.next,
                                        },
                                    }
                                },
                            }
                        },
                    }
                },
            }
        },
    }
}

impl Answer {
    /// Reads the time to live at the cursor, a big-endian 32-bit number.
    pub fn parse_ttl(reader: &mut DnsReader) -> (r: Result<u32, ParseError>)
        ensures
            final(reader).buf@ == old(reader).buf@,
            final(reader).cur_pos as int == ttl_parsed(
                old(reader).buf@,
                old(reader).cur_pos as int,
            ).next,
            r == ttl_parsed(old(reader).buf@, old(reader).cur_pos as int).outcome,
    {
        let mut buf: [u8; 4] = [0;4];
        reader.read_exact(&mut buf)?;
        Ok(u32_from_be_bytes(buf))
    }
}

impl AsBytes for Answer {
    /// An answer has a wire form when its data has one.
    open spec fn encodable(&self) -> bool {
        octets_of(self.rdata@) is Some
    }

    open spec fn wire(&self) -> Seq<u8> {
        answer_wire(self@)
    }

    fn as_bytes(&self) -> (bytes: Vec<u8>) {
        let mut buf = self.name.as_bytes();
        let mut typez = self.typez.as_bytes();
        let mut class = self.class.as_bytes();
        buf.append(&mut typez);
        buf.append(&mut class);
        let ttl = u32_to_be_bytes(self.ttl);
        buf.push(ttl[0]);
        buf.push(ttl[1]);
        buf.push(ttl[2]);
        buf.push(ttl[3]);
        let mut rdata = self.rdata.as_bytes();
        let len = rdata.len() as u16;
        let len = u16_to_be_bytes(len);
        buf.push(len[0]);
        buf.push(len[1]);
        buf.append(&mut rdata);
        assert(buf@ =~= answer_wire(self@));
        buf
    }
}

impl Parse for Answer {
    open spec fn parsed(buf: Seq<u8>, pos: int) -> Parsed<AnswerView> {
        answer_parsed(buf, pos)
    }

    fn parse(reader: &mut DnsReader) -> (r: Result<Self, ParseError>) {
        let name = Label::parse(reader)?;
        let typez = RecordType::parse(reader)?;
        let class = RecordClass::parse(reader)?;
        let ttl = Answer::parse_ttl(reader)?;
        let rdata = RData::parse(reader)?;
        Ok(Answer { name, typez, class, ttl, rdata })
    }
}

/// Record data in the one form that decoding writes: the text of four bytes
/// in decimal, without signs or leading zeros.
pub open spec fn valid_rdata(text: Seq<char>) -> bool {
    octets_of(text) is Some && dotted(octets_of(text)->0) == text
}

/// An answer that decoding can give back: its name and its data are well
/// formed and its type and class are the supported ones.
pub open spec fn valid_answer(a: AnswerView) -> bool {
    &&& valid_name(a.name)
    &&& a.typez == RecordType::A
    &&& a.class == RecordClass::IN
    &&& valid_rdata(a.rdata)
}

/// Decoding the wire form of a valid answer gives the answer back, wherever
/// the bytes stand in a buffer and whatever follows them, and leaves the
/// cursor behind them.
pub proof fn lemma_answer_round_trip(a: AnswerView, before: Seq<u8>, after: Seq<u8>)
    requires
        valid_answer(a),
    ensures
        answer_parsed(before + answer_wire(a) + after, before.len() as int) == (Parsed {
            outcome: Ok::<AnswerView, ParseError>(a),
            next: (before.len() + answer_wire(a).len()) as int,
        }),
{
    let buf = before + answer_wire(a) + after;
    let octets = octets_of(a.rdata)->0;
    assert(octets.len() == 4);
    let fixed = be16(type_code(a.typez)) + be16(class_code(a.class)) + be32(a.ttl) + be16(
        octets.len() as u16,
    );
    let tail = fixed + octets + after;
    assert(buf =~= before + name_wire(a.name) + tail);
    lemma_name_round_trip(a.name, before, tail);
    let at = (before.len() + name_wire(a.name).len()) as int;
    assert(fixed.len() == 10);
    assert forall|i: int| 0 <= i < 10 implies buf[at + i] == fixed[i] by {}
    assert(buf[at] == 0 && buf[at + 1] == 1 && buf[at + 2] == 0 && buf[at + 3] == 1);
    lemma_be32_round_trip(a.ttl);
    assert(buf[at + 4] == be32(a.ttl)[0] && buf[at + 5] == be32(a.ttl)[1] && buf[at + 6] == be32(
        a.ttl,
    )[2] && buf[at + 7] == be32(a.ttl)[3]);
    assert(ttl_parsed(buf, at + 4).outcome == Ok::<u32, ParseError>(a.ttl));
    assert(buf[at + 8] == 0 && buf[at + 9] == 4);
    assert(buf.subrange(at + 10, at + 14) =~= octets);
}

/// A number in decimal is one digit or more, and stands for the number.
pub proof fn lemma_decimal_digits(n: nat)
    ensures
        decimal(n).len() >= 1,
        forall|i: int| 0 <= i < decimal(n).len() ==> is_digit(#[trigger] decimal(n)[i]),
        digits_value(decimal(n)) == n,
    decreases n,
{
    if n < 10 {
        let text = decimal(n);
        assert(text.drop_last() =~= Seq::<char>::empty());
        assert(digits_value(text.drop_last()) == 0);
        assert(text.last() as u32 == 48 + n);
    } else {
        lemma_decimal_digits(n / 10);
        let text = decimal(n);
        let front = decimal(n / 10);
        assert(text.drop_last() =~= front);
        assert(text.last() as u32 == 48 + n % 10);
        assert forall|i: int| 0 <= i < text.len() implies is_digit(#[trigger] text[i]) by {
            if i < front.len() {
                assert(text[i] == front[i]);
            }
        }
    }
}

/// A byte written in decimal is read back as that byte.
pub proof fn lemma_octet_of_decimal(byte: u8)
    ensures
        octet_of(decimal(byte as nat)) == Some(byte),
        forall|i: int|
            0 <= i < decimal(byte as nat).len() ==> (#[trigger] decimal(byte as nat)[i]) != '.',
{
    let text = decimal(byte as nat);
    lemma_decimal_digits(byte as nat);
    assert(is_digit(text[0]));
    assert(without_sign(text) == text);
    assert forall|i: int| 0 <= i < text.len() implies (#[trigger] text[i]) != '.' by {
        assert(is_digit(text[i]));
    }
}

/// Texts without dots, joined with dots and cut at the dots again, are the
/// texts that were joined.
pub proof fn lemma_split_join(parts: Seq<Seq<char>>)
    requires
        parts.len() >= 1,
        forall|i: int, j: int|
            0 <= i < parts.len() && 0 <= j < parts[i].len() ==> (#[trigger] parts[i][j]) != '.',
    ensures
        split_dots(join_dots(parts)) == parts,
    decreases parts.len(),
{
    let first = parts[0];
    let others = parts.drop_first();
    assert(parts =~= seq![first] + others);
    assert forall|j: int| 0 <= j < first.len() implies first[j] != '.' by {
        assert(parts[0][j] != '.');
    }
    if others.len() == 0 {
        assert(parts =~= seq![first]);
        assert(join_dots(parts) == first);
        lemma_dot_at(first, first.len() as int);
    } else {
        assert forall|i: int, j: int|
            0 <= i < others.len() && 0 <= j < others[i].len() implies (#[trigger] others[i][j])
            != '.' by {
            assert(others[i] == parts[i + 1]);
            assert(parts[i + 1][j] != '.');
        }
        lemma_join_first(first, others);
        lemma_split_join(others);
        let text = join_dots(parts);
        assert(text == first + seq!['.'] + join_dots(others));
        lemma_dot_at(text, first.len() as int);
        assert(text.take(first.len() as int) =~= first);
        assert(text.skip(first.len() as int + 1) =~= join_dots(others));
    }
}

/// Four bytes written out as dotted decimal text are read back as those
/// four bytes, and the text is in the form that decoding writes.
pub proof fn lemma_octets_of_dotted(bytes: Seq<u8>)
    requires
        bytes.len() == ADDRESS_LEN,
    ensures
        octets_of(dotted(bytes)) == Some(bytes),
        valid_rdata(dotted(bytes)),
{
    let parts = bytes.map_values(|b: u8| decimal(b as nat));
    assert forall|i: int, j: int|
        0 <= i < parts.len() && 0 <= j < parts[i].len() implies (#[trigger] parts[i][j]) != '.' by {
        lemma_octet_of_decimal(bytes[i]);
    }
    lemma_split_join(parts);
    assert forall|i: int| 0 <= i < parts.len() implies (#[trigger] octet_of(parts[i])) == Some(
        bytes[i],
    ) by {
        lemma_octet_of_decimal(bytes[i]);
    }
    assert(parts.map_values(|part: Seq<char>| octet_of(part)->0) =~= bytes);
}

} // verus!
