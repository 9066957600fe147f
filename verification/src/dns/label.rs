//! Domain names: dot-separated text in memory, length-prefixed segments on
//! the wire, with compression pointers followed while decoding.

use crate::common::bits::{bits_lsb, bits_msb};
use crate::common::dns_reader::{in_bounds, overflow_at};
use crate::common::{AsBytes, DnsReader, Parse, ParseError, Parsed};
use vstd::arithmetic::power2::lemma2_to64;
use vstd::prelude::*;
use vstd::string::StringExecFns;
use vstd::utf8::{
    decode_utf8, encode_utf8, encode_utf8_decode_utf8, encode_utf8_valid_utf8, is_ascii_chars,
    is_ascii_chars_encode_utf8, valid_utf8,
};

pub mod loops;

verus! {

/// A domain name, written with dots between its segments.
#[derive(Debug)]
pub struct Label(pub String);

impl View for Label {
    type V = Seq<char>;

    open spec fn view(&self) -> Seq<char> {
        self.0@
    }
}

impl Clone for Label {
    fn clone(&self) -> (copy: Self)
        ensures
            copy@ == self@,
    {
        Label(self.0.clone())
    }
}

/// The number of bytes that a character takes in UTF-8.
pub open spec fn utf8_width(c: char) -> nat {
    if (c as u32) < 0x80 {
        1
    } else if (c as u32) < 0x800 {
        2
    } else if (c as u32) < 0x1_0000 {
        3
    } else {
        4
    }
}

/// The number of bytes that a text takes in UTF-8.
pub open spec fn text_width(text: Seq<char>) -> nat
    decreases text.len(),
{
    if text.len() == 0 {
        0
    } else {
        text_width(text.drop_last()) + utf8_width(text.last())
    }
}

/// The low eight bits of a character's code point.
pub open spec fn low_byte(c: char) -> u8 {
    (c as u32 % 256) as u8
}

/// The place of the first dot of a text, or its length if it has none.
pub open spec fn dot_at(text: Seq<char>) -> int
    decreases text.len(),
{
    if text.len() == 0 || text[0] == '.' {
        0
    } else {
        1 + dot_at(text.drop_first())
    }
}

/// The wire form of one segment: a length byte, then one byte for each
/// character. The length byte counts the bytes of the segment's UTF-8 form
/// and keeps the low eight bits of that count; each character gives the low
/// eight bits of its code point. For a segment of up to 255 ASCII characters
/// this is its length and its text.
pub open spec fn segment_wire(segment: Seq<char>) -> Seq<u8> {
    seq![(text_width(segment) % 256) as u8] + segment.map_values(|c: char| low_byte(c))
}

/// The wire form of a name: the wire form of each of the segments between
/// its dots, in order, then a zero byte. Pointers are never written.
pub open spec fn name_wire(name: Seq<char>) -> Seq<u8>
    decreases name.len(),
{
    let k = dot_at(name);
    if 0 <= k < name.len() {
        segment_wire(name.take(k)) + name_wire(name.skip(k + 1))
    } else {
        segment_wire(name) + seq![0u8]
    }
}

/// The first dot of a text stands behind a run of characters that holds
/// none.
pub proof fn lemma_dot_at(text: Seq<char>, k: int)
    requires
        0 <= k <= text.len(),
        forall|i: int| 0 <= i < k ==> text[i] != '.',
        k < text.len() ==> text[k] == '.',
    ensures
        dot_at(text) == k,
    decreases text.len(),
{
    if k > 0 {
        lemma_dot_at(text.drop_first(), k - 1);
    }
}

/// The number of UTF-8 bytes of a character.
fn char_width(c: char) -> (w: u8)
    ensures
        w == utf8_width(c),
{
    let v: u32 = c as u32;
    if v < 0x80 {
        1
    } else if v < 0x800 {
        2
    } else if v < 0x1_0000 {
        3
    } else {
        4
    }
}

impl AsBytes for Label {
    open spec fn encodable(&self) -> bool {
        true
    }

    open spec fn wire(&self) -> Seq<u8> {
        name_wire(self@)
    }

    fn as_bytes(&self) -> (bytes: Vec<u8>) {
        let ghost name = self.0@;
        let mut labels: Vec<u8> = Vec::new();
        let mut segment: Vec<u8> = Vec::new();
        let mut width: u8 = 0;
        let ghost mut from: int = 0;
        proof {
            assert(name.skip(0) =~= name);
            assert(labels@ + name_wire(name) =~= name_wire(name));
            assert(name.subrange(0, 0) =~= Seq::<char>::empty());
        }
        for c in it: self.0.as_str().chars()
            invariant
                it.seq() == name,
                0 <= from <= it.index() <= name.len(),
                forall|i: int| from <= i < it.index() ==> name[i] != '.',
                name_wire(name) == labels@ + name_wire(name.skip(from)),
                segment@ == name.subrange(from, it.index() as int).map_values(|c: char| low_byte(c)),
                width == text_width(name.subrange(from, it.index() as int)) % 256,
        {
            let ghost at = it.index() as int;
            if c == '.' {
                proof {
                    let rest = name.skip(from);
                    lemma_dot_at(rest, at - from);
                    assert(rest.take(at - from) =~= name.subrange(from, at));
                    assert(rest.skip(at - from + 1) =~= name.skip(at + 1));
                    assert(name.subrange(at + 1, at + 1) =~= Seq::<char>::empty());
                }
                labels.push(width);
                labels.append(&mut segment);
                width = 0;
                proof {
                    from = at + 1;
                    assert(segment@ =~= name.subrange(from, from).map_values(|c: char| low_byte(c)));
                }
            } else {
                proof {
                    assert(name.subrange(from, at + 1).drop_last() =~= name.subrange(from, at));
                    assert(name.subrange(from, at + 1).map_values(|c: char| low_byte(c))
                        =~= name.subrange(from, at).map_values(|c: char| low_byte(c)).push(
                        low_byte(c),
                    ));
                }
                let w = char_width(c);
                width = ((width as u16 + w as u16) % 256) as u8;
                segment.push(((c as u32) % 256) as u8);
            }
        }
        proof {
            let rest = name.skip(from);
            lemma_dot_at(rest, rest.len() as int);
            assert(rest =~= name.subrange(from, name.len() as int));
        }
        labels.push(width);
        labels.append(&mut segment);
        // A zero byte ends the name.
        labels.push(0x00);
        labels
    }
}

/// The smallest length byte that stands for a pointer: its two top bits are
/// set.
pub const POINTER_MARK: u8 = 0xC0;

/// The segments of a name, joined with dots.
pub open spec fn join_dots(parts: Seq<Seq<char>>) -> Seq<char>
    decreases parts.len(),
{
    if parts.len() == 0 {
        Seq::empty()
    } else if parts.len() == 1 {
        parts[0]
    } else {
        join_dots(parts.drop_last()) + seq!['.'] + parts.last()
    }
}

/// The place in the message that a pointer names: the low six bits of its
/// first byte are the high bits of the offset, its second byte the low
/// eight.
pub open spec fn pointer_target(first: u8, second: u8) -> int {
    (first as int % 64) * 256 + second as int
}

/// `rest` with the segments `parts` put in front of what it decoded.
pub open spec fn prefixed(parts: Seq<Seq<char>>, rest: Parsed<Seq<Seq<char>>>) -> Parsed<
    Seq<Seq<char>>,
> {
    Parsed {
        outcome: match rest.outcome {
            Ok(more) => Ok(parts + more),
            Err(e) => Err(e),
        },
        next: rest.next,
    }
}

/// Decoding the segments of a name at `pos` of `buf`, following at most
/// `hops` pointers one after another.
///
/// A zero byte ends the name. A byte of at least [`POINTER_MARK`] starts a
/// two-byte pointer: the name found at its target counts as one last
/// segment, and the cursor is left behind the pointer. Any other byte is the
/// length of a segment of UTF-8 text that follows it.
pub open spec fn segments_parsed(buf: Seq<u8>, pos: int, hops: nat) -> Parsed<Seq<Seq<char>>>
    decreases hops, buf.len() - pos,
{
    if !in_bounds(buf.len(), pos, 1) {
        Parsed { outcome: Err(overflow_at(buf.len(), pos, 1)), next: pos }
    } else if buf[pos] == 0 {
        Parsed { outcome: Ok(Seq::empty()), next: pos + 1 }
    } else if buf[pos] >= POINTER_MARK {
        if !in_bounds(buf.len(), pos + 1, 1) {
            Parsed { outcome: Err(overflow_at(buf.len(), pos + 1, 1)), next: pos + 1 }
        } else if hops == 0 {
            Parsed { outcome: Err(ParseError::PointerLoop), next: pos + 2 }
        } else {
            let target = segments_parsed(
                buf,
                pointer_target(buf[pos], buf[pos + 1]),
                (hops - 1) as nat,
            );
            Parsed {
                outcome: match target.outcome {
                    Ok(parts) => Ok(seq![join_dots(parts)]),
                    Err(e) => Err(e),
                },
                next: pos + 2,
            }
        }
    } else {
        let length = buf[pos] as nat;
        if !in_bounds(buf.len(), pos + 1, length) {
            Parsed { outcome: Err(overflow_at(buf.len(), pos + 1, length)), next: pos + 1 }
        } else {
            let content = buf.subrange(pos + 1, pos + 1 + length);
            if !valid_utf8(content) {
                Parsed { outcome: Err(ParseError::MalformedText), next: pos + 1 + length }
            } else {
                prefixed(seq![decode_utf8(content)], segments_parsed(buf, pos + 1 + length, hops))
            }
        }
    }
}

/// Decoding a name at `pos` of `buf`: its segments, joined with dots.
///
/// As many pointers are followed one after another as the buffer has bytes.
/// A longer chain passes some place twice and would never end, and is
/// refused with [`ParseError::PointerLoop`]; see
/// [`loops::lemma_hop_limit_is_no_limit`].
pub open spec fn name_parsed(buf: Seq<u8>, pos: int) -> Parsed<Seq<char>> {
    name_parsed_within(buf, pos, buf.len())
}

/// Decoding a name at `pos` of `buf`, following at most `hops` pointers one
/// after another.
pub open spec fn name_parsed_within(buf: Seq<u8>, pos: int, hops: nat) -> Parsed<Seq<char>> {
    let segments = segments_parsed(buf, pos, hops);
    Parsed {
        outcome: match segments.outcome {
            Ok(parts) => Ok(join_dots(parts)),
            Err(e) => Err(e),
        },
        next: segments.next,
    }
}

/// The texts of a list of strings.
pub open spec fn texts(parts: Seq<String>) -> Seq<Seq<char>> {
    parts.map_values(|part: String| part@)
}

/// Turns bytes into text with `String::from_utf8`. The standard library
/// documents that it accepts exactly the byte sequences that are well-formed
/// UTF-8 and gives the text that they encode; `valid_utf8` and `decode_utf8`
/// are the definitions of that encoding. This is taken on trust: the body
/// is not verified.
#[verifier::external_body]
fn text_from_utf8(bytes: Vec<u8>) -> (text: Option<String>)
    ensures
        text is Some <==> valid_utf8(bytes@),
        text is Some ==> text->0@ == decode_utf8(bytes@),
{
    match String::from_utf8(bytes) {
        Ok(text) => Some(text),
        Err(_) => None,
    }
}

/// Joins texts with dots.
fn join_parts(parts: &Vec<String>) -> (joined: String)
    ensures
        joined@ == join_dots(texts(parts@)),
{
    let mut joined = String::new();
    let mut i: usize = 0;
    while i < parts.len()
        invariant
            i <= parts.len(),
            joined@ == join_dots(texts(parts@.take(i as int))),
        decreases parts.len() - i,
    {
        proof {
            let now = texts(parts@.take(i + 1));
            assert(now.drop_last() =~= texts(parts@.take(i as int)));
            assert(now.last() == parts@[i as int]@);
            reveal_strlit(".");
            assert("."@ =~= seq!['.']);
            if i == 0 {
                assert(joined@ + parts@[0]@ =~= parts@[0]@);
            }
        }
        if i > 0 {
            joined.append(".");
        }
        joined.append(parts[i].as_str());
        i += 1;
    }
    assert(parts@.take(parts.len() as int) =~= parts@);
    joined
}

impl Label {
    /// Decodes a name at the cursor, following at most `hops` pointers one
    /// after another. A pointer is followed by a second cursor on the same
    /// buffer; this cursor goes on behind the pointer.
    pub fn parse_within(reader: &mut DnsReader, hops: usize) -> (r: Result<Self, ParseError>)
        ensures
            final(reader).buf@ == old(reader).buf@,
            final(reader).cur_pos as int == name_parsed_within(
                old(reader).buf@,
                old(reader).cur_pos as int,
                hops as nat,
            ).next,
            match name_parsed_within(
                old(reader).buf@,
                old(reader).cur_pos as int,
                hops as nat,
            ).outcome {
                Ok(name) => r is Ok && r->Ok_0@ == name,
                Err(e) => r is Err && r->Err_0 == e,
            },
        decreases hops,
    {
        let ghost buf = reader.buf@;
        let ghost start = reader.cur_pos as int;
        let mut label_parts: Vec<String> = Vec::new();
        proof {
            assert(texts(label_parts@) =~= Seq::<Seq<char>>::empty());
            assert(prefixed(Seq::empty(), segments_parsed(buf, start, hops as nat))
                == segments_parsed(buf, start, hops as nat)) by {
                let rest = segments_parsed(buf, start, hops as nat);
                if let Ok(more) = rest.outcome {
                    assert(Seq::<Seq<char>>::empty() + more =~= more);
                }
            }
        }
        loop
            invariant_except_break
                segments_parsed(buf, start, hops as nat) == prefixed(
                    texts(label_parts@),
                    segments_parsed(buf, reader.cur_pos as int, hops as nat),
                ),
            invariant
                reader.buf@ == buf,
                buf == old(reader).buf@,
                start == old(reader).cur_pos,
            ensures
                reader.buf@ == buf,
                segments_parsed(buf, start, hops as nat) == (Parsed {
                    outcome: Ok::<Seq<Seq<char>>, ParseError>(texts(label_parts@)),
                    next: reader.cur_pos as int,
                }),
            decreases buf.len() - reader.cur_pos,
        {
            let ghost pos = reader.cur_pos as int;
            let ghost here = segments_parsed(buf, pos, hops as nat);
            let ghost so_far = texts(label_parts@);
            let mut length: [u8; 1] = [0;1];
            reader.read_exact(&mut length)?;
            let length: u8 = length[0];
            assert(length == buf[pos]);
            if length == 0x00 {
                proof {
                    assert(so_far + Seq::<Seq<char>>::empty() =~= so_far);
                }
                break ;
            }
            let top = bits_msb(length, 2);
            assert(top == length / 64) by {
                lemma2_to64();
            }
            if top == 0b11 {
                assert(length >= POINTER_MARK);
                let mut one_more: [u8; 1] = [0;1];
                reader.read_exact(&mut one_more)?;
                let low = bits_lsb(length, 6);
                assert(low == length % 64) by {
                    lemma2_to64();
                }
                let offset: usize = low as usize * 256 + one_more[0] as usize;
                assert(offset == pointer_target(buf[pos], buf[pos + 1]));
                if hops == 0 {
                    return Err(ParseError::PointerLoop);
                }
                let mut pointer_reader = DnsReader { buf: reader.buf, cur_pos: offset };
                let label = Label::parse_within(&mut pointer_reader, hops - 1)?;
                label_parts.push(label.0);
                proof {
                    let target = segments_parsed(buf, offset as int, (hops - 1) as nat);
                    assert(texts(label_parts@) =~= so_far + seq![join_dots(target.outcome->Ok_0)]);
                }
                return Ok(Label(join_parts(&label_parts)));
            }
            assert(length < POINTER_MARK);
            let mut content: Vec<u8> = vec![0u8; length as usize];
            reader.read_exact(content.as_mut_slice())?;
            let ghost bytes = content@;
            let content = match text_from_utf8(content) {
                Some(text) => text,
                None => {
                    return Err(ParseError::MalformedText);
                },
            };
            label_parts.push(content);
            proof {
                let rest = segments_parsed(buf, reader.cur_pos as int, hops as nat);
                assert(texts(label_parts@) =~= so_far.push(decode_utf8(bytes)));
                assert(here == prefixed(seq![decode_utf8(bytes)], rest));
                if let Ok(more) = rest.outcome {
                    assert(so_far + (seq![decode_utf8(bytes)] + more) =~= so_far.push(
                        decode_utf8(bytes),
                    ) + more);
                }
            }
        }
        Ok(Label(join_parts(&label_parts)))
    }
}

impl Parse for Label {
    open spec fn parsed(buf: Seq<u8>, pos: int) -> Parsed<Seq<char>> {
        name_parsed(buf, pos)
    }

    fn parse(reader: &mut DnsReader) -> (r: Result<Self, ParseError>) {
        let hops = reader.buf.len();
        Label::parse_within(reader, hops)
    }
}

/// The segments between the dots of a name. A name without a dot is one
/// segment.
pub open spec fn split_dots(name: Seq<char>) -> Seq<Seq<char>>
    decreases name.len(),
{
    let k = dot_at(name);
    if 0 <= k < name.len() {
        seq![name.take(k)] + split_dots(name.skip(k + 1))
    } else {
        seq![name]
    }
}

/// The longest segment that a name may have.
pub const MAX_SEGMENT_LEN: usize = 63;

/// A well-formed name: ASCII text whose segments between the dots have 1 to
/// 63 characters each.
pub open spec fn valid_name(name: Seq<char>) -> bool
    decreases name.len(),
{
    let k = dot_at(name);
    if 0 <= k < name.len() {
        &&& 1 <= k <= MAX_SEGMENT_LEN
        &&& is_ascii_chars(name.take(k))
        &&& valid_name(name.skip(k + 1))
    } else {
        &&& 1 <= name.len() <= MAX_SEGMENT_LEN
        &&& is_ascii_chars(name)
    }
}

/// The place of the first dot lies within the text.
pub proof fn lemma_dot_at_bounds(text: Seq<char>)
    ensures
        0 <= dot_at(text) <= text.len(),
        forall|i: int| 0 <= i < dot_at(text) ==> text[i] != '.',
        dot_at(text) < text.len() ==> text[dot_at(text)] == '.',
    decreases text.len(),
{
    if text.len() == 0 || text[0] == '.' {
    } else {
        let tail = text.drop_first();
        lemma_dot_at_bounds(tail);
        assert forall|i: int| 0 <= i < dot_at(text) implies text[i] != '.' by {
            if i > 0 {
                assert(text[i] == tail[i - 1]);
            }
        }
        assert(dot_at(text) < text.len() ==> text[dot_at(text)] == tail[dot_at(tail)]);
    }
}

/// An ASCII text takes one byte for each character.
pub proof fn lemma_ascii_width(text: Seq<char>)
    requires
        is_ascii_chars(text),
    ensures
        text_width(text) == text.len(),
    decreases text.len(),
{
    if text.len() > 0 {
        assert(is_ascii_chars(text.drop_last()));
        lemma_ascii_width(text.drop_last());
        assert('\0' <= text[text.len() - 1] <= '\u{7f}');
    }
}

/// The bytes written for an ASCII segment are its UTF-8 form, and decode to
/// the segment.
pub proof fn lemma_ascii_segment_text(segment: Seq<char>)
    requires
        is_ascii_chars(segment),
    ensures
        valid_utf8(segment.map_values(|c: char| low_byte(c))),
        decode_utf8(segment.map_values(|c: char| low_byte(c))) == segment,
{
    let bytes = segment.map_values(|c: char| low_byte(c));
    is_ascii_chars_encode_utf8(segment);
    assert forall|i: int| 0 <= i < segment.len() implies bytes[i] == encode_utf8(segment)[i] by {
        assert('\0' <= segment[i] <= '\u{7f}');
        assert(segment[i] as u8 == encode_utf8(segment)[i]);
    }
    assert(bytes =~= encode_utf8(segment));
    encode_utf8_valid_utf8(segment);
    encode_utf8_decode_utf8(segment);
}

/// Joining a first segment with at least one more puts a dot between it and
/// the others joined.
pub proof fn lemma_join_first(first: Seq<char>, others: Seq<Seq<char>>)
    requires
        others.len() > 0,
    ensures
        join_dots(seq![first] + others) == first + seq!['.'] + join_dots(others),
    decreases others.len(),
{
    let all = seq![first] + others;
    if others.len() == 1 {
        assert(all.drop_last() =~= seq![first]);
        assert(join_dots(all.drop_last()) == first);
        assert(join_dots(others) == others[0]);
    } else {
        assert(all.drop_last() =~= seq![first] + others.drop_last());
        lemma_join_first(first, others.drop_last());
        assert(join_dots(all) =~= first + seq!['.'] + join_dots(others));
    }
}

/// Splitting a name at its dots and joining the segments with dots gives
/// the name back.
pub proof fn lemma_join_split(name: Seq<char>)
    ensures
        split_dots(name).len() > 0,
        join_dots(split_dots(name)) == name,
    decreases name.len(),
{
    let k = dot_at(name);
    lemma_dot_at_bounds(name);
    if 0 <= k < name.len() {
        let rest = name.skip(k + 1);
        lemma_join_split(rest);
        lemma_join_first(name.take(k), split_dots(rest));
        assert(name.take(k) + seq!['.'] + rest =~= name);
    }
}

/// Decoding the wire form of a well-formed name gives its segments back,
/// wherever the bytes stand in a buffer and whatever follows them, and leaves
/// the cursor behind their closing zero byte. No pointer is met on the way.
pub proof fn lemma_segments_round_trip(
    name: Seq<char>,
    before: Seq<u8>,
    after: Seq<u8>,
    hops: nat,
)
    requires
        valid_name(name),
    ensures
        segments_parsed(before + name_wire(name) + after, before.len() as int, hops) == (Parsed {
            outcome: Ok::<Seq<Seq<char>>, ParseError>(split_dots(name)),
            next: (before.len() + name_wire(name).len()) as int,
        }),
    decreases name.len(),
{
    let buf = before + name_wire(name) + after;
    let pos = before.len() as int;
    let k = dot_at(name);
    lemma_dot_at_bounds(name);
    let segment = if 0 <= k < name.len() {
        name.take(k)
    } else {
        name
    };
    let content = segment.map_values(|c: char| low_byte(c));
    lemma_ascii_width(segment);
    lemma_ascii_segment_text(segment);
    assert(segment_wire(segment).len() == 1 + segment.len());
    assert(buf[pos] == segment_wire(segment)[0]);
    assert(buf[pos] == segment.len());
    assert(buf.subrange(pos + 1, pos + 1 + segment.len()) =~= content);
    let behind = pos + 1 + segment.len();
    assert(buf[pos] != 0 && buf[pos] < POINTER_MARK);
    assert(in_bounds(buf.len(), pos + 1, buf[pos] as nat));
    assert(valid_utf8(content) && decode_utf8(content) == segment);
    let here = segments_parsed(buf, pos, hops);
    let there = segments_parsed(buf, behind, hops);
    assert(here == prefixed(seq![segment], there));
    if 0 <= k < name.len() {
        let rest = name.skip(k + 1);
        let done = before + segment_wire(segment);
        assert(name_wire(name) == segment_wire(segment) + name_wire(rest));
        assert(buf =~= done + name_wire(rest) + after);
        lemma_segments_round_trip(rest, done, after, hops);
        assert(done.len() == behind);
        assert(there.outcome == Ok::<Seq<Seq<char>>, ParseError>(split_dots(rest)));
        assert(split_dots(name) == seq![segment] + split_dots(rest));
    } else {
        assert(name_wire(name) == segment_wire(segment) + seq![0u8]);
        assert(buf[behind] == 0);
        assert(there == (Parsed {
            outcome: Ok::<Seq<Seq<char>>, ParseError>(Seq::empty()),
            next: behind + 1,
        }));
        assert(seq![segment] + Seq::<Seq<char>>::empty() =~= seq![segment]);
        assert(split_dots(name) == seq![segment]);
    }
}

/// Decoding the wire form of a well-formed name gives the name back,
/// wherever the bytes stand in a buffer and whatever follows them, and leaves
/// the cursor behind them.
pub proof fn lemma_name_round_trip(name: Seq<char>, before: Seq<u8>, after: Seq<u8>)
    requires
        valid_name(name),
    ensures
        name_parsed(before + name_wire(name) + after, before.len() as int) == (Parsed {
            outcome: Ok::<Seq<char>, ParseError>(name),
            next: (before.len() + name_wire(name).len()) as int,
        }),
{
    let buf = before + name_wire(name) + after;
    lemma_segments_round_trip(name, before, after, buf.len());
    lemma_join_split(name);
}

/// A length byte whose two top bits are set is never taken as the length of
/// a segment: whatever follows it, decoding reads exactly one more byte as
/// the rest of a pointer, leaves the cursor behind those two bytes, and
/// yields what the name at the pointer's target yields.
pub proof fn lemma_pointer_is_never_a_length(buf: Seq<u8>, pos: int, hops: nat)
    requires
        0 <= pos,
        pos + 2 <= buf.len(),
        buf[pos] >= POINTER_MARK,
        hops > 0,
    ensures
        name_parsed_within(buf, pos, hops).next == pos + 2,
        name_parsed_within(buf, pos, hops).outcome == name_parsed_within(
            buf,
            pointer_target(buf[pos], buf[pos + 1]),
            (hops - 1) as nat,
        ).outcome,
{
    let target = segments_parsed(buf, pointer_target(buf[pos], buf[pos + 1]), (hops - 1) as nat);
    if let Ok(parts) = target.outcome {
        assert(join_dots(seq![join_dots(parts)]) == join_dots(parts));
    }
}

/// The limit on pointers changes no result but the refusal itself: what
/// decoding yields under a limit, unless it is [`ParseError::PointerLoop`],
/// it yields under every greater limit too.
pub proof fn lemma_more_hops_same_result(buf: Seq<u8>, pos: int, hops: nat, more: nat)
    requires
        hops <= more,
        segments_parsed(buf, pos, hops).outcome != Err::<Seq<Seq<char>>, ParseError>(
            ParseError::PointerLoop,
        ),
    ensures
        segments_parsed(buf, pos, more) == segments_parsed(buf, pos, hops),
        name_parsed_within(buf, pos, more) == name_parsed_within(buf, pos, hops),
    decreases hops, buf.len() - pos,
{
    if !in_bounds(buf.len(), pos, 1) || buf[pos] == 0 {
    } else if buf[pos] >= POINTER_MARK {
        if in_bounds(buf.len(), pos + 1, 1) {
            assert(hops > 0);
            let target = pointer_target(buf[pos], buf[pos + 1]);
            lemma_more_hops_same_result(buf, target, (hops - 1) as nat, (more - 1) as nat);
        }
    } else {
        let length = buf[pos] as nat;
        if in_bounds(buf.len(), pos + 1, length) && valid_utf8(
            buf.subrange(pos + 1, pos + 1 + length),
        ) {
            lemma_more_hops_same_result(buf, pos + 1 + length, hops, more);
        }
    }
}

} // verus!
