//! Building a message so that its header always agrees with its content.

use crate::dns::answer::{Answer, AnswerView};
use crate::dns::header::Header;
use crate::dns::packet::{answer_views, built, question_views, Packet, PacketView};
use crate::dns::question::{Question, QuestionView};
use vstd::prelude::*;

verus! {

/// Collects a header, questions and answers, and makes a message of them.
/// The counts in the header of that message are never taken from the
/// caller: they are those of the two lists.
pub struct PacketBuilder {
    header: Header,
    questions: Vec<Question>,
    answers: Vec<Answer>,
}

/// A zero header, no questions and no answers.
pub open spec fn nothing_collected() -> PacketView {
    PacketView { header: Header::default_spec(), questions: Seq::empty(), answers: Seq::empty() }
}

impl View for PacketBuilder {
    type V = PacketView;

    /// What has been collected so far.
    closed spec fn view(&self) -> PacketView {
        PacketView {
            header: self.header,
            questions: question_views(self.questions@),
            answers: answer_views(self.answers@),
        }
    }
}

impl Default for PacketBuilder {
    /// A builder with a zero header and no questions or answers.
    fn default() -> (builder: Self)
        ensures
            builder@ == nothing_collected(),
    {
        let builder = PacketBuilder {
            header: Header::default(),
            questions: Vec::new(),
            answers: Vec::new(),
        };
        assert(builder@.questions =~= Seq::<QuestionView>::empty());
        assert(builder@.answers =~= Seq::<AnswerView>::empty());
        builder
    }
}

impl PacketBuilder {
    /// Replaces the header.
    pub fn header(self, header: Header) -> (builder: Self)
        ensures
            builder@ == (PacketView { header, ..self@ }),
    {
        PacketBuilder { header, questions: self.questions, answers: self.answers }
    }

    /// Adds a question behind those collected so far.
    pub fn question(self, question: Question) -> (builder: Self)
        ensures
            builder@ == (PacketView { questions: self@.questions.push(question@), ..self@ }),
    {
        let mut questions = self.questions;
        questions.push(question);
        assert(question_views(questions@) =~= question_views(self.questions@).push(question@));
        PacketBuilder { header: self.header, questions, answers: self.answers }
    }

    /// Adds an answer behind those collected so far.
    pub fn answer(self, answer: Answer) -> (builder: Self)
        ensures
            builder@ == (PacketView { answers: self@.answers.push(answer@), ..self@ }),
    {
        let mut answers = self.answers;
        answers.push(answer);
        assert(answer_views(answers@) =~= answer_views(self.answers@).push(answer@));
        PacketBuilder { header: self.header, questions: self.questions, answers }
    }

    /// Replaces the questions collected so far.
    pub fn questions(self, questions: Vec<Question>) -> (builder: Self)
        ensures
            builder@ == (PacketView { questions: question_views(questions@), ..self@ }),
    {
        PacketBuilder { header: self.header, questions, answers: self.answers }
    }

    /// Replaces the answers collected so far.
    pub fn answers(self, answers: Vec<Answer>) -> (builder: Self)
        ensures
            builder@ == (PacketView { answers: answer_views(answers@), ..self@ }),
    {
        PacketBuilder { header: self.header, questions: self.questions, answers }
    }

    /// Makes the message.
    pub fn build(self) -> (packet: Packet)
        ensures
            packet@ == built(self@),
    {
        let packet = Packet {
            header: Header {
                id: self.header.id,
                qr: 1,
                opcode: self.header.opcode,
                aa: 0,
                tc: 0,
                rd: self.header.rd,
                ra: 0,
                z: 0,
                rcode: if self.header.opcode == 0 {
                    0
                } else {
                    4
                },
                qdcount: (self.questions.len() % 0x1_0000) as u16,
                ancount: (self.answers.len() % 0x1_0000) as u16,
                nscount: 0,
                arcount: 0,
            },
            questions: self.questions,
            answers: self.answers,
        };
        packet
    }
}

impl Packet {
    /// A builder that has collected nothing yet.
    pub fn builder() -> (builder: PacketBuilder)
        ensures
            builder@ == nothing_collected(),
    {
        PacketBuilder::default()
    }
}

} // verus!
