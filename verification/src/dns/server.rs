//! What the server answers: a fixed mock answer to every question, or what
//! an upstream server said.

use crate::common::{AsBytes, DnsReader, Parse, ParseError, Parsed};
use crate::dns::answer::{
    decimal, dotted, lemma_octets_of_dotted, octets_of, valid_answer, Answer, AnswerView, RData,
};
use crate::dns::header::Header;
use crate::dns::label::join_dots;
use crate::dns::packet::laws::{lemma_built_is_valid, lemma_reply_round_trip, valid_packet};
use crate::dns::packet::{
    all_answers, all_questions, answer_views, answers_encodable, built, packet_parsed,
    packet_views, packet_wire, question_views, reply_parsed, Merge, Packet, PacketView,
};
use crate::dns::question::{valid_question, QuestionView};
use crate::dns::{RecordClass, RecordType};
use vstd::prelude::*;
use vstd::slice::slice_subrange;
use vstd::string::StringExecFns;

verus! {

/// The server's side of the protocol.
pub struct DnsServer {}

/// For how many seconds a mock answer may be kept.
pub const MOCK_TTL: u32 = 60;

/// The address that every mock answer gives.
pub open spec fn mock_address() -> Seq<u8> {
    seq![8u8, 8u8, 8u8, 8u8]
}

/// The mock answer to a question: an address record for the name asked.
pub open spec fn mock_answer(q: QuestionView) -> AnswerView {
    AnswerView {
        name: q.name,
        typez: RecordType::A,
        class: RecordClass::IN,
        ttl: MOCK_TTL,
        rdata: dotted(mock_address()),
    }
}

/// The mock response to a request: the questions of the request, a mock
/// answer to each of them in the same order, under the header that building
/// makes of the request's.
pub open spec fn mock_response(request: PacketView) -> PacketView {
    built(
        PacketView {
            header: request.header,
            questions: request.questions,
            answers: request.questions.map_values(|q: QuestionView| mock_answer(q)),
        },
    )
}

/// The response to a request that was forwarded: all questions and all
/// answers of the replies, in their order, under the header that building
/// makes of the request's.
pub open spec fn forwarded_response(request: PacketView, replies: Seq<PacketView>) -> PacketView {
    built(
        PacketView {
            header: request.header,
            questions: all_questions(replies),
            answers: all_answers(replies),
        },
    )
}

/// The mock address, written out, is the text `8.8.8.8`.
pub proof fn lemma_mock_address_text()
    ensures
        dotted(mock_address()) == "8.8.8.8"@,
        octets_of("8.8.8.8"@) == Some(mock_address()),
{
    let parts = mock_address().map_values(|b: u8| decimal(b as nat));
    let eight = seq!['8'];
    assert(decimal(8) =~= eight);
    assert(parts =~= seq![eight, eight, eight, eight]);
    let three = parts.drop_last();
    let two = three.drop_last();
    let one = two.drop_last();
    assert(three =~= seq![eight, eight, eight]);
    assert(two =~= seq![eight, eight]);
    assert(one =~= seq![eight]);
    assert(join_dots(one) == eight);
    assert(join_dots(two) =~= seq!['8', '.', '8']);
    assert(join_dots(three) =~= seq!['8', '.', '8', '.', '8']);
    assert(join_dots(parts) =~= seq!['8', '.', '8', '.', '8', '.', '8']);
    reveal_strlit("8.8.8.8");
    assert("8.8.8.8"@ =~= seq!['8', '.', '8', '.', '8', '.', '8']);
    lemma_octets_of_dotted(mock_address());
}

/// The mock response keeps the identifier of the request, is marked as a
/// response, and answers each question at its place: as many answers as
/// questions, the `i`-th for the name of the `i`-th question, to be kept
/// for 60 seconds, with the address `8.8.8.8`.
pub proof fn lemma_mock_response_shape(request: PacketView)
    ensures
        mock_response(request).header.id == request.header.id,
        mock_response(request).header.qr == 1,
        mock_response(request).questions == request.questions,
        mock_response(request).answers.len() == request.questions.len(),
        forall|i: int|
            0 <= i < request.questions.len() ==> {
                let answer = #[trigger] mock_response(request).answers[i];
                &&& answer.name == request.questions[i].name
                &&& answer.typez == RecordType::A
                &&& answer.class == RecordClass::IN
                &&& answer.ttl == 60
                &&& answer.rdata == "8.8.8.8"@
            },
{
    lemma_mock_address_text();
}

/// The mock response to a request with well-formed questions is a valid
/// message, so that decoding its wire form as a reply gives it back.
pub proof fn lemma_mock_response_round_trip(request: PacketView)
    requires
        request.questions.len() < 0x1_0000,
        request.header.opcode < 16,
        request.header.rd < 2,
        forall|i: int|
            0 <= i < request.questions.len() ==> valid_question(#[trigger] request.questions[i]),
    ensures
        valid_packet(mock_response(request)),
        reply_parsed(packet_wire(mock_response(request)), 0) == (Parsed {
            outcome: Ok::<PacketView, ParseError>(mock_response(request)),
            next: packet_wire(mock_response(request)).len() as int,
        }),
{
    let answers = request.questions.map_values(|q: QuestionView| mock_answer(q));
    lemma_octets_of_dotted(mock_address());
    assert forall|i: int| 0 <= i < answers.len() implies valid_answer(#[trigger] answers[i]) by {
        assert(valid_question(request.questions[i]));
    }
    let parts = PacketView { header: request.header, questions: request.questions, answers };
    lemma_built_is_valid(parts);
    let response = mock_response(request);
    lemma_reply_round_trip(response, Seq::empty(), Seq::empty());
    assert(Seq::<u8>::empty() + packet_wire(response) + Seq::<u8>::empty() =~= packet_wire(
        response,
    ));
}

impl DnsServer {
    /// Decodes the query that a datagram holds. The datagram is the first
    /// `packet_size` bytes of `buf`.
    pub fn read_packet(buf: &[u8], packet_size: usize) -> (r: Result<Packet, ParseError>)
        requires
            packet_size <= buf@.len(),
        ensures
            match packet_parsed(buf@.subrange(0, packet_size as int), 0).outcome {
                Ok(p) => r is Ok && r->Ok_0@ == p,
                Err(e) => r is Err && r->Err_0 == e,
            },
    {
        let datagram = slice_subrange(buf, 0, packet_size);
        let mut dns_reader = DnsReader::new(datagram);
        Packet::parse(&mut dns_reader)
    }

    /// The response to `packet` after its questions were forwarded and
    /// `resolved` came back: the wire form of [`forwarded_response`]. There is
    /// none when an answer that came back has no wire form.
    pub fn get_response_byte(packet: &Packet, resolved: &Vec<Packet>) -> (bytes: Option<Vec<u8>>)
        ensures
            bytes is Some <==> answers_encodable(all_answers(packet_views(resolved@))),
            bytes is Some ==> bytes->0@ == packet_wire(
                forwarded_response(packet@, packet_views(resolved@)),
            ),
    {
        let resolved = resolved.merge();
        let response = Packet::builder().header(
            Header { qr: resolved.header.qr, ..packet.header },
        ).questions(resolved.questions).answers(resolved.answers).build();
        if response.is_encodable() {
            Some(response.as_bytes())
        } else {
            None
        }
    }
}

/// The mock response to `packet`, encoded: the wire form of
/// [`mock_response`].
pub fn get_mock_response_byte(packet: Packet) -> (bytes: Vec<u8>)
    ensures
        bytes@ == packet_wire(mock_response(packet@)),
{
    let ghost questions = question_views(packet.questions@);
    let mut answers: Vec<Answer> = Vec::new();
    let mut i: usize = 0;
    proof {
        lemma_mock_address_text();
    }
    while i < packet.questions.len()
        invariant
            i <= packet.questions.len(),
            questions == question_views(packet.questions@),
            answers@.len() == i,
            forall|j: int| 0 <= j < i ==> (#[trigger] answers@[j])@ == mock_answer(questions[j]),
            dotted(mock_address()) == "8.8.8.8"@,
        decreases packet.questions.len() - i,
    {
        let q = &packet.questions[i];
        answers.push(
            Answer {
                name: q.name.clone(),
                typez: RecordType::A,
                class: RecordClass::IN,
                ttl: MOCK_TTL,
                rdata: RData(String::from_str("8.8.8.8")),
            },
        );
        i += 1;
    }
    proof {
        assert(answer_views(answers@) =~= questions.map_values(|q: QuestionView| mock_answer(q)));
        assert forall|j: int| 0 <= j < answers@.len() implies octets_of(
            (#[trigger] answer_views(answers@)[j]).rdata,
        ) is Some by {
            assert(answers@[j]@ == mock_answer(questions[j]));
        }
    }
    let response = Packet::builder().header(packet.header).answers(answers).questions(
        packet.questions,
    ).build();
    response.as_bytes()
}

} // verus!
