//! Whole messages: a header, questions and answers.

use crate::common::{AsBytes, DnsReader, Parse, ParseError, Parsed};
use crate::dns::answer::{answer_parsed, answer_wire, octets_of, Answer, AnswerView};
use crate::dns::header::{header_parsed, header_wire, Header};
use crate::dns::question::{question_parsed, question_wire, Question, QuestionView};
use vstd::prelude::*;

pub mod laws;
pub mod packet_builder;

verus! {

/// A DNS message.
#[derive(Debug)]
pub struct Packet {
    pub header: Header,
    pub questions: Vec<Question>,
    pub answers: Vec<Answer>,
}

/// What a message says, with all names and data as plain text.
pub struct PacketView {
    pub header: Header,
    pub questions: Seq<QuestionView>,
    pub answers: Seq<AnswerView>,
}

/// What a list of questions says.
pub open spec fn question_views(questions: Seq<Question>) -> Seq<QuestionView> {
    questions.map_values(|q: Question| q@)
}

/// What a list of answers says.
pub open spec fn answer_views(answers: Seq<Answer>) -> Seq<AnswerView> {
    answers.map_values(|a: Answer| a@)
}

impl View for Packet {
    type V = PacketView;

    open spec fn view(&self) -> PacketView {
        PacketView {
            header: self.header,
            questions: question_views(self.questions@),
            answers: answer_views(self.answers@),
        }
    }
}

/// The wire forms of a list of questions, one behind the other.
pub open spec fn questions_wire(questions: Seq<QuestionView>) -> Seq<u8>
    decreases questions.len(),
{
    if questions.len() == 0 {
        Seq::empty()
    } else {
        question_wire(questions[0]) + questions_wire(questions.drop_first())
    }
}

/// The wire forms of a list of answers, one behind the other.
pub open spec fn answers_wire(answers: Seq<AnswerView>) -> Seq<u8>
    decreases answers.len(),
{
    if answers.len() == 0 {
        Seq::empty()
    } else {
        answer_wire(answers[0]) + answers_wire(answers.drop_first())
    }
}

/// Whether every answer of a list has a wire form.
pub open spec fn answers_encodable(answers: Seq<AnswerView>) -> bool {
    forall|i: int| 0 <= i < answers.len() ==> octets_of((#[trigger] answers[i]).rdata) is Some
}

/// The wire form of a message: header, questions, answers, with nothing in
/// front, between or behind.
pub open spec fn packet_wire(p: PacketView) -> Seq<u8> {
    header_wire(p.header) + questions_wire(p.questions) + answers_wire(p.answers)
}

/// `rest` with the questions `done` put in front of what it decoded.
pub open spec fn after_questions(done: Seq<QuestionView>, rest: Parsed<Seq<QuestionView>>) -> Parsed<
    Seq<QuestionView>,
> {
    Parsed {
        outcome: match rest.outcome {
            Ok(more) => Ok(done + more),
            Err(e) => Err(e),
        },
        next: rest.next,
    }
}

/// `rest` with the answers `done` put in front of what it decoded.
pub open spec fn after_answers(done: Seq<AnswerView>, rest: Parsed<Seq<AnswerView>>) -> Parsed<
    Seq<AnswerView>,
> {
    Parsed {
        outcome: match rest.outcome {
            Ok(more) => Ok(done + more),
            Err(e) => Err(e),
        },
        next: rest.next,
    }
}

/// Decoding `count` questions one behind the other, from `pos` of `buf`. The
/// first that fails ends the decoding.
pub open spec fn questions_parsed(buf: Seq<u8>, pos: int, count: nat) -> Parsed<Seq<QuestionView>>
    decreases count,
{
    if count == 0 {
        Parsed { outcome: Ok(Seq::empty()), next: pos }
    } else {
        let first = question_parsed(buf, pos);
        match first.outcome {
            Err(e) => Parsed { outcome: Err(e), next: first.next },
            Ok(q) => after_questions(seq![q], questions_parsed(buf, first.next, (count - 1) as nat)),
        }
    }
}

/// Decoding `count` answers one behind the other, from `pos` of `buf`. The
/// first that fails ends the decoding.
pub open spec fn answers_parsed(buf: Seq<u8>, pos: int, count: nat) -> Parsed<Seq<AnswerView>>
    decreases count,
{
    if count == 0 {
        Parsed { outcome: Ok(Seq::empty()), next: pos }
    } else {
        let first = answer_parsed(buf, pos);
        match first.outcome {
            Err(e) => Parsed { outcome: Err(e), next: first.next },
            Ok(a) => after_answers(seq![a], answers_parsed(buf, first.next, (count - 1) as nat)),
        }
    }
}

/// A count of records as the header holds it: its low sixteen bits.
pub open spec fn wrapped_count(n: nat) -> u16 {
    (n % 0x1_0000) as u16
}

/// The header that building a message makes of a given one. The identifier,
/// the operation code and the recursion-desired flag pass through. The
/// message is marked as a response, the response code says "not
/// implemented" for every operation but a standard query, the counts of
/// questions and answers are those of the two lists, and everything else is
/// zero.
pub open spec fn built_header(given: Header, questions: nat, answers: nat) -> Header {
    Header {
        id: given.id,
        qr: 1,
        opcode: given.opcode,
        aa: 0,
        tc: 0,
        rd: given.rd,
        ra: 0,
        z: 0,
        rcode: if given.opcode == 0 {
            0
        } else {
            4
        },
        qdcount: wrapped_count(questions),
        ancount: wrapped_count(answers),
        nscount: 0,
        arcount: 0,
    }
}

/// The message that building makes of a header, questions and answers.
pub open spec fn built(parts: PacketView) -> PacketView {
    PacketView {
        header: built_header(parts.header, parts.questions.len(), parts.answers.len()),
        questions: parts.questions,
        answers: parts.answers,
    }
}

/// Decoding a query at `pos` of `buf`: the header, then as many questions
/// as the header counts. Answers are not read. What was read is built into
/// a message.
pub open spec fn packet_parsed(buf: Seq<u8>, pos: int) -> Parsed<PacketView> {
    let header = header_parsed(buf, pos);
    match header.outcome {
        Err(e) => Parsed { outcome: Err(e), next: header.next },
        Ok(h) => {
            let questions = questions_parsed(buf, header.next, h.qdcount as nat);
            match questions.outcome {
                Err(e) => Parsed { outcome: Err(e), next: questions.next },
                Ok(qs) => Parsed {
                    outcome: Ok(built(PacketView { header: h, questions: qs, answers: Seq::empty() })),
                    next: questions.next,
                },
            }
        },
    }
}

/// Decoding a reply at `pos` of `buf`: the header, then as many questions
/// and as many answers as the header counts. What was read is built into a
/// message.
pub open spec fn reply_parsed(buf: Seq<u8>, pos: int) -> Parsed<PacketView> {
    let header = header_parsed(buf, pos);
    match header.outcome {
        Err(e) => Parsed { outcome: Err(e), next: header.next },
        Ok(h) => {
            let questions = questions_parsed(buf, header.next, h.qdcount as nat);
            match questions.outcome {
                Err(e) => Parsed { outcome: Err(e), next: questions.next },
                Ok(qs) => {
                    let answers = answers_parsed(buf, questions.next, h.ancount as nat);
                    match answers.outcome {
                        Err(e) => Parsed { outcome: Err(e), next: answers.next },
                        Ok(ans) => Parsed {
                            outcome: Ok(built(PacketView { header: h, questions: qs, answers: ans })),
                            next: answers.next,
                        },
                    }
                },
            }
        },
    }
}

/// The wire forms of questions, with one more at the end.
pub proof fn lemma_questions_wire_push(questions: Seq<QuestionView>, last: QuestionView)
    ensures
        questions_wire(questions.push(last)) == questions_wire(questions) + question_wire(last),
    decreases questions.len(),
{
    let all = questions.push(last);
    if questions.len() == 0 {
        assert(all.drop_first() =~= Seq::<QuestionView>::empty());
        assert(questions_wire(all.drop_first()) =~= Seq::<u8>::empty());
        assert(all[0] == last);
        assert(questions_wire(all) =~= question_wire(last));
        assert(questions_wire(questions) + question_wire(last) =~= question_wire(last));
    } else {
        assert(all.drop_first() =~= questions.drop_first().push(last));
        lemma_questions_wire_push(questions.drop_first(), last);
        assert(questions_wire(all) =~= questions_wire(questions) + question_wire(last));
    }
}

/// The wire forms of answers, with one more at the end.
pub proof fn lemma_answers_wire_push(answers: Seq<AnswerView>, last: AnswerView)
    ensures
        answers_wire(answers.push(last)) == answers_wire(answers) + answer_wire(last),
    decreases answers.len(),
{
    let all = answers.push(last);
    if answers.len() == 0 {
        assert(all.drop_first() =~= Seq::<AnswerView>::empty());
        assert(answers_wire(all.drop_first()) =~= Seq::<u8>::empty());
        assert(all[0] == last);
        assert(answers_wire(all) =~= answer_wire(last));
        assert(answers_wire(answers) + answer_wire(last) =~= answer_wire(last));
    } else {
        assert(all.drop_first() =~= answers.drop_first().push(last));
        lemma_answers_wire_push(answers.drop_first(), last);
        assert(answers_wire(all) =~= answers_wire(answers) + answer_wire(last));
    }
}

impl Packet {
    /// Whether the message has a wire form: whether every answer has one.
    pub fn is_encodable(&self) -> (yes: bool)
        ensures
            yes == self.encodable(),
    {
        let mut i: usize = 0;
        while i < self.answers.len()
            invariant
                i <= self.answers.len(),
                forall|j: int|
                    0 <= j < i ==> octets_of((#[trigger] answer_views(self.answers@)[j]).rdata) is Some,
            decreases self.answers.len() - i,
        {
            if self.answers[i].rdata.octets().is_none() {
                assert(octets_of(answer_views(self.answers@)[i as int].rdata) is None);
                return false;
            }
            i += 1;
        }
        true
    }

    /// Decodes `count` questions at the cursor.
    fn parse_questions(reader: &mut DnsReader, count: u16) -> (r: Result<Vec<Question>, ParseError>)
        ensures
            final(reader).buf@ == old(reader).buf@,
            final(reader).cur_pos as int == questions_parsed(
                old(reader).buf@,
                old(reader).cur_pos as int,
                count as nat,
            ).next,
            match questions_parsed(
                old(reader).buf@,
                old(reader).cur_pos as int,
                count as nat,
            ).outcome {
                Ok(qs) => r is Ok && question_views(r->Ok_0@) == qs,
                Err(e) => r is Err && r->Err_0 == e,
            },
    {
        let ghost buf = reader.buf@;
        let ghost start = reader.cur_pos as int;
        let mut questions: Vec<Question> = Vec::new();
        let mut i: u16 = 0;
        proof {
            let whole = questions_parsed(buf, start, count as nat);
            if let Ok(more) = whole.outcome {
                assert(question_views(questions@) + more =~= more);
            }
        }
        while i < count
            invariant
                i <= count,
                reader.buf@ == buf,
                buf == old(reader).buf@,
                start == old(reader).cur_pos,
                questions_parsed(buf, start, count as nat) == after_questions(
                    question_views(questions@),
                    questions_parsed(buf, reader.cur_pos as int, (count - i) as nat),
                ),
            decreases count - i,
        {
            let ghost done = question_views(questions@);
            let ghost pos = reader.cur_pos as int;
            let question = Question::parse(reader)?;
            proof {
                let rest = questions_parsed(buf, reader.cur_pos as int, (count - i - 1) as nat);
                assert(question_views(questions@.push(question)) =~= done.push(question@));
                if let Ok(more) = rest.outcome {
                    assert(done + (seq![question@] + more) =~= done.push(question@) + more);
                }
            }
            questions.push(question);
            i += 1;
        }
        proof {
            assert(question_views(questions@) + Seq::<QuestionView>::empty() =~= question_views(
                questions@,
            ));
        }
        Ok(questions)
    }

    /// Decodes `count` answers at the cursor.
    fn parse_answers(reader: &mut DnsReader, count: u16) -> (r: Result<Vec<Answer>, ParseError>)
        ensures
            final(reader).buf@ == old(reader).buf@,
            final(reader).cur_pos as int == answers_parsed(
                old(reader).buf@,
                old(reader).cur_pos as int,
                count as nat,
            ).next,
            match answers_parsed(
                old(reader).buf@,
                old(reader).cur_pos as int,
                count as nat,
            ).outcome {
                Ok(ans) => r is Ok && answer_views(r->Ok_0@) == ans,
                Err(e) => r is Err && r->Err_0 == e,
            },
    {
        let ghost buf = reader.buf@;
        let ghost start = reader.cur_pos as int;
        let mut answers: Vec<Answer> = Vec::new();
        let mut i: u16 = 0;
        proof {
            let whole = answers_parsed(buf, start, count as nat);
            if let Ok(more) = whole.outcome {
                assert(answer_views(answers@) + more =~= more);
            }
        }
        while i < count
            invariant
                i <= count,
                reader.buf@ == buf,
                buf == old(reader).buf@,
                start == old(reader).cur_pos,
                answers_parsed(buf, start, count as nat) == after_answers(
                    answer_views(answers@),
                    answers_parsed(buf, reader.cur_pos as int, (count - i) as nat),
                ),
            decreases count - i,
        {
            let ghost done = answer_views(answers@);
            let answer = Answer::parse(reader)?;
            proof {
                let rest = answers_parsed(buf, reader.cur_pos as int, (count - i - 1) as nat);
                assert(answer_views(answers@.push(answer)) =~= done.push(answer@));
                if let Ok(more) = rest.outcome {
                    assert(done + (seq![answer@] + more) =~= done.push(answer@) + more);
                }
            }
            answers.push(answer);
            i += 1;
        }
        proof {
            assert(answer_views(answers@) + Seq::<AnswerView>::empty() =~= answer_views(answers@));
        }
        Ok(answers)
    }

    /// Decodes a reply at the cursor: header, questions and answers.
    pub fn parse_reply(reader: &mut DnsReader) -> (r: Result<Self, ParseError>)
        ensures
            final(reader).buf@ == old(reader).buf@,
            final(reader).cur_pos as int == reply_parsed(
                old(reader).buf@,
                old(reader).cur_pos as int,
            ).next,
            match reply_parsed(old(reader).buf@, old(reader).cur_pos as int).outcome {
                Ok(p) => r is Ok && r->Ok_0@ == p,
                Err(e) => r is Err && r->Err_0 == e,
            },
    {
        let header = Header::parse(reader)?;
        let questions = Packet::parse_questions(reader, header.qdcount)?;
        let answers = Packet::parse_answers(reader, header.ancount)?;
        Ok(Packet::builder().header(header).questions(questions).answers(answers).build())
    }
}

impl AsBytes for Packet {
    /// A message has a wire form when each of its answers has one.
    open spec fn encodable(&self) -> bool {
        answers_encodable(self@.answers)
    }

    open spec fn wire(&self) -> Seq<u8> {
        packet_wire(self@)
    }

    fn as_bytes(&self) -> (bytes: Vec<u8>) {
        // A message seldom takes more than 512 bytes.
        let mut buf: Vec<u8> = Vec::with_capacity(512);
        let mut header = self.header.as_bytes();
        buf.append(&mut header);
        let ghost questions = question_views(self.questions@);
        let ghost answers = answer_views(self.answers@);
        let mut i: usize = 0;
        assert(questions.take(0) =~= Seq::<QuestionView>::empty());
        assert(buf@ =~= header_wire(self.header) + questions_wire(questions.take(0)));
        while i < self.questions.len()
            invariant
                i <= self.questions.len(),
                questions == question_views(self.questions@),
                buf@ == header_wire(self.header) + questions_wire(questions.take(i as int)),
            decreases self.questions.len() - i,
        {
            let mut one = self.questions[i].as_bytes();
            proof {
                lemma_questions_wire_push(questions.take(i as int), questions[i as int]);
                assert(questions.take(i + 1) =~= questions.take(i as int).push(questions[i as int]));
            }
            buf.append(&mut one);
            assert(buf@ =~= header_wire(self.header) + questions_wire(questions.take(i + 1)));
            i += 1;
        }
        assert(questions.take(self.questions.len() as int) =~= questions);
        let mut k: usize = 0;
        assert(answers.take(0) =~= Seq::<AnswerView>::empty());
        assert(buf@ =~= header_wire(self.header) + questions_wire(questions) + answers_wire(
            answers.take(0),
        ));
        while k < self.answers.len()
            invariant
                k <= self.answers.len(),
                answers == answer_views(self.answers@),
                answers_encodable(answers),
                buf@ == header_wire(self.header) + questions_wire(questions) + answers_wire(
                    answers.take(k as int),
                ),
            decreases self.answers.len() - k,
        {
            assert(octets_of(answers[k as int].rdata) is Some);
            let mut one = self.answers[k].as_bytes();
            proof {
                lemma_answers_wire_push(answers.take(k as int), answers[k as int]);
                assert(answers.take(k + 1) =~= answers.take(k as int).push(answers[k as int]));
            }
            buf.append(&mut one);
            assert(buf@ =~= header_wire(self.header) + questions_wire(questions) + answers_wire(
                answers.take(k + 1),
            ));
            k += 1;
        }
        assert(answers.take(self.answers.len() as int) =~= answers);
        buf
    }
}

impl Parse for Packet {
    open spec fn parsed(buf: Seq<u8>, pos: int) -> Parsed<PacketView> {
        packet_parsed(buf, pos)
    }

    fn parse(reader: &mut DnsReader) -> (r: Result<Self, ParseError>) {
        let header = Header::parse(reader)?;
        let questions = Packet::parse_questions(reader, header.qdcount)?;
        Ok(Packet::builder().header(header).questions(questions).build())
    }
}

/// Joining answers back into one message.
pub trait Merge<T> {
    fn merge(&self) -> T;
}

/// What a list of messages says.
pub open spec fn packet_views(packets: Seq<Packet>) -> Seq<PacketView> {
    packets.map_values(|p: Packet| p@)
}

/// The header of a message that holds one question of a message split, with
/// `id` as its identifier. Every flag is that of the header `whole` of the
/// message split: `qr`, `opcode`, `aa`, `tc`, `rd`, `ra`, `z` and `rcode`.
/// The counts are those of the piece: one question and no other record.
pub open spec fn piece_header(whole: Header, id: u16) -> Header {
    Header {
        id,
        qr: whole.qr,
        opcode: whole.opcode,
        aa: whole.aa,
        tc: whole.tc,
        rd: whole.rd,
        ra: whole.ra,
        z: whole.z,
        rcode: whole.rcode,
        qdcount: 1,
        ancount: 0,
        nscount: 0,
        arcount: 0,
    }
}

/// The `i`-th of the messages that a message is split into, with `id` as its
/// identifier: the one question `i` and no answers, under
/// [`piece_header`]. No flag of the message's own header is changed on the
/// way.
pub open spec fn split_piece(p: PacketView, i: int, id: u16) -> PacketView {
    PacketView {
        header: piece_header(p.header, id),
        questions: seq![p.questions[i]],
        answers: Seq::empty(),
    }
}

/// The questions of all messages of a list, in the order of the list.
pub open spec fn all_questions(packets: Seq<PacketView>) -> Seq<QuestionView>
    decreases packets.len(),
{
    if packets.len() == 0 {
        Seq::empty()
    } else {
        all_questions(packets.drop_last()) + packets.last().questions
    }
}

/// The answers of all messages of a list, in the order of the list.
pub open spec fn all_answers(packets: Seq<PacketView>) -> Seq<AnswerView>
    decreases packets.len(),
{
    if packets.len() == 0 {
        Seq::empty()
    } else {
        all_answers(packets.drop_last()) + packets.last().answers
    }
}

/// The recursion-desired flag of a merged message: that of the first of the
/// messages, and 1 where there is none.
pub open spec fn merged_rd(packets: Seq<PacketView>) -> u8 {
    if packets.len() > 0 {
        packets[0].header.rd
    } else {
        1
    }
}

/// The one message that a list of messages is merged into, with `id` as its
/// identifier: a response for a standard query that holds all their
/// questions and all their answers, each in the order of the list.
pub open spec fn merged(packets: Seq<PacketView>, id: u16) -> PacketView {
    built(
        PacketView {
            header: Header {
                id,
                qr: 1,
                opcode: 0,
                aa: 0,
                tc: 0,
                rd: merged_rd(packets),
                ra: 0,
                z: 0,
                rcode: 0,
                qdcount: 0,
                ancount: 0,
                nscount: 0,
                arcount: 0,
            },
            questions: all_questions(packets),
            answers: all_answers(packets),
        },
    )
}

/// A transaction identifier from `rand::random`, which draws it from the
/// thread's random number generator. Any value may come back, so nothing is
/// claimed of it; the body is not verified.
#[verifier::external_body]
fn random_id() -> u16 {
    rand::random()
}

impl Packet {
    /// Splits the message into one message for each question, in order, with
    /// `ids[i]` as the identifier of the `i`-th. Each piece keeps every flag
    /// of this message's header and holds its one question and no answer.
    pub fn split_with_ids(&self, ids: &Vec<u16>) -> (pieces: Vec<Self>)
        requires
            ids@.len() == self.questions@.len(),
        ensures
            pieces@.len() == self.questions@.len(),
            forall|i: int|
                0 <= i < pieces@.len() ==> (#[trigger] pieces@[i])@ == split_piece(
                    self@,
                    i,
                    ids@[i],
                ),
    {
        let mut pieces: Vec<Packet> = Vec::new();
        let mut i: usize = 0;
        while i < self.questions.len()
            invariant
                i <= self.questions.len(),
                ids@.len() == self.questions@.len(),
                pieces@.len() == i,
                forall|j: int|
                    0 <= j < i ==> (#[trigger] pieces@[j])@ == split_piece(self@, j, ids@[j]),
            decreases self.questions.len() - i,
        {
            let question = self.questions[i].clone();
            let ghost asked = question@;
            let mut questions: Vec<Question> = Vec::with_capacity(1);
            questions.push(question);
            // The flags are taken over as they are, so the piece is put
            // together here and not built: building would set them anew.
            let piece = Packet {
                header: Header {
                    id: ids[i],
                    qr: self.header.qr,
                    opcode: self.header.opcode,
                    aa: self.header.aa,
                    tc: self.header.tc,
                    rd: self.header.rd,
                    ra: self.header.ra,
                    z: self.header.z,
                    rcode: self.header.rcode,
                    qdcount: 1,
                    ancount: 0,
                    nscount: 0,
                    arcount: 0,
                },
                questions,
                answers: Vec::new(),
            };
            proof {
                assert(piece@.questions =~= seq![asked]);
                assert(asked == self@.questions[i as int]);
                assert(piece@.answers =~= Seq::<AnswerView>::empty());
                assert(piece@ == split_piece(self@, i as int, ids@[i as int]));
            }
            pieces.push(piece);
            i += 1;
        }
        pieces
    }

    /// Splits the message into one message for each question, in order, each
    /// under a random identifier of its own. Each piece keeps every flag of
    /// this message's header and holds its one question and no answer.
    pub fn split(&self) -> (pieces: Vec<Self>)
        ensures
            pieces@.len() == self.questions@.len(),
            forall|i: int|
                0 <= i < pieces@.len() ==> (#[trigger] pieces@[i])@ == split_piece(
                    self@,
                    i,
                    pieces@[i].header.id,
                ),
    {
        let mut ids: Vec<u16> = Vec::new();
        let mut i: usize = 0;
        while i < self.questions.len()
            invariant
                i <= self.questions.len(),
                ids@.len() == i,
            decreases self.questions.len() - i,
        {
            ids.push(random_id());
            i += 1;
        }
        self.split_with_ids(&ids)
    }

    /// Merges messages into one that holds all their questions and all their
    /// answers, in order, with `id` as its identifier.
    pub fn merge_with_id(packets: &Vec<Packet>, id: u16) -> (packet: Packet)
        ensures
            packet@ == merged(packet_views(packets@), id),
    {
        let ghost views = packet_views(packets@);
        let count = packets.len();
        let mut questions: Vec<Question> = Vec::new();
        let mut answers: Vec<Answer> = Vec::new();
        let mut i: usize = 0;
        proof {
            assert(views.take(0) =~= Seq::<PacketView>::empty());
            assert(question_views(questions@) =~= all_questions(views.take(0)));
            assert(answer_views(answers@) =~= all_answers(views.take(0)));
        }
        while i < count
            invariant
                i <= count,
                count == packets@.len(),
                views == packet_views(packets@),
                question_views(questions@) == all_questions(views.take(i as int)),
                answer_views(answers@) == all_answers(views.take(i as int)),
            decreases count - i,
        {
            let ghost before_q = question_views(questions@);
            let ghost before_a = answer_views(answers@);
            let packet = &packets[i];
            proof {
                assert(views.take(i + 1).drop_last() =~= views.take(i as int));
                assert(views.take(i + 1).last() == packet@);
            }
            let mut k: usize = 0;
            proof {
                assert(packet@.questions.take(0) =~= Seq::<QuestionView>::empty());
                assert(before_q + packet@.questions.take(0) =~= before_q);
            }
            while k < packet.questions.len()
                invariant
                    k <= packet.questions.len(),
                    question_views(questions@) == before_q + packet@.questions.take(k as int),
                decreases packet.questions.len() - k,
            {
                let question = packet.questions[k].clone();
                proof {
                    assert(question_views(questions@.push(question)) =~= question_views(
                        questions@,
                    ).push(question@));
                    assert(before_q + packet@.questions.take(k + 1) =~= (before_q
                        + packet@.questions.take(k as int)).push(question@));
                }
                questions.push(question);
                k += 1;
            }
            assert(packet@.questions.take(packet.questions.len() as int) =~= packet@.questions);
            let mut k: usize = 0;
            proof {
                assert(packet@.answers.take(0) =~= Seq::<AnswerView>::empty());
                assert(before_a + packet@.answers.take(0) =~= before_a);
            }
            while k < packet.answers.len()
                invariant
                    k <= packet.answers.len(),
                    answer_views(answers@) == before_a + packet@.answers.take(k as int),
                decreases packet.answers.len() - k,
            {
                let answer = packet.answers[k].clone();
                proof {
                    assert(answer_views(answers@.push(answer)) =~= answer_views(answers@).push(
                        answer@,
                    ));
                    assert(before_a + packet@.answers.take(k + 1) =~= (before_a
                        + packet@.answers.take(k as int)).push(answer@));
                }
                answers.push(answer);
                k += 1;
            }
            assert(packet@.answers.take(packet.answers.len() as int) =~= packet@.answers);
            i += 1;
        }
        assert(views.take(count as int) =~= views);
        let rd: u8 = if count > 0 {
            packets[0].header.rd
        } else {
            1
        };
        Packet::builder().header(
            Header {
                id,
                qr: 1,
                opcode: 0,
                aa: 0,
                tc: 0,
                rd,
                ra: 0,
                z: 0,
                rcode: 0,
                qdcount: (count % 0x1_0000) as u16,
                ancount: (count % 0x1_0000) as u16,
                nscount: 0,
                arcount: 0,
            },
        ).questions(questions).answers(answers).build()
    }
}

impl Merge<Packet> for Vec<Packet> {
    /// Merges the messages into one that holds all their questions and all
    /// their answers, in order, under a random identifier.
    fn merge(&self) -> (packet: Packet)
        ensures
            packet@ == merged(packet_views(self@), packet.header.id),
    {
        Packet::merge_with_id(self, random_id())
    }
}

} // verus!
