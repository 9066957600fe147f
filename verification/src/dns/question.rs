//! The question section of a message: what is asked for.

use crate::common::bits::be16;
use crate::common::{AsBytes, DnsReader, Parse, ParseError, Parsed};
use crate::dns::label::{name_parsed, name_wire, valid_name, lemma_name_round_trip, Label};
use crate::dns::{class_code, class_parsed, type_code, type_parsed, RecordClass, RecordType};
use vstd::prelude::*;

verus! {

/// One question: a name, and the type and class of the records wanted.
#[derive(Debug)]
pub struct Question {
    pub name: Label,
    pub typez: RecordType,
    pub class: RecordClass,
}

/// What a question says, with its name as plain text.
pub struct QuestionView {
    pub name: Seq<char>,
    pub typez: RecordType,
    pub class: RecordClass,
}

impl View for Question {
    type V = QuestionView;

    open spec fn view(&self) -> QuestionView {
        QuestionView { name: self.name@, typez: self.typez, class: self.class }
    }
}

impl Clone for Question {
    fn clone(&self) -> (copy: Self)
        ensures
            copy@ == self@,
    {
        Question { name: self.name.clone(), typez: self.typez, class: self.class }
    }
}

/// The wire form of a question: its name, its type, its class.
pub open spec fn question_wire(q: QuestionView) -> Seq<u8> {
    name_wire(q.name) + be16(type_code(q.typez)) + be16(class_code(q.class))
}

/// Decoding a question at `pos` of `buf`: a name, a type and a class, one
/// behind the other. The first of them that fails ends the decoding.
pub open spec fn question_parsed(buf: Seq<u8>, pos: int) -> Parsed<QuestionView> {
    let name = name_parsed(buf, pos);
    match name.outcome {
        Err(e) => Parsed { outcome: Err(e), next: name.next },
        Ok(text) => {
            let typez = type_parsed(buf, name.next);
            match typez.outcome {
                Err(e) => Parsed { outcome: Err(e), next: typez.next },
                Ok(t) => {
                    let class = class_parsed(buf, typez.next);
                    match class.outcome {
                        Err(e) => Parsed { outcome: Err(e), next: class.next },
                        Ok(c) => Parsed {
                            outcome: Ok(QuestionView { name: text, typez: t, class: c }),
                            next: class.next,
                        },
                    }
                },
            }
        },
    }
}

/// A question that decoding can give back: its name is well formed and its
/// type and class are the supported ones.
pub open spec fn valid_question(q: QuestionView) -> bool {
    &&& valid_name(q.name)
    &&& q.typez == RecordType::A
    &&& q.class == RecordClass::IN
}

impl AsBytes for Question {
    open spec fn encodable(&self) -> bool {
        true
    }

    open spec fn wire(&self) -> Seq<u8> {
        question_wire(self@)
    }

    fn as_bytes(&self) -> (bytes: Vec<u8>) {
        let mut buf = self.name.as_bytes();
        let mut typez = self.typez.as_bytes();
        let mut class = self.class.as_bytes();
        buf.append(&mut typez);
        buf.append(&mut class);
        buf
    }
}

impl Parse for Question {
    open spec fn parsed(buf: Seq<u8>, pos: int) -> Parsed<QuestionView> {
        question_parsed(buf, pos)
    }

    fn parse(reader: &mut DnsReader) -> (r: Result<Self, ParseError>) {
        let name = Label::parse(reader)?;
        let typez = RecordType::parse(reader)?;
        let class = RecordClass::parse(reader)?;
        Ok(Question { name, typez, class })
    }
}

/// Decoding the wire form of a valid question gives the question back,
/// wherever the bytes stand in a buffer and whatever follows them, and leaves
/// the cursor behind them.
pub proof fn lemma_question_round_trip(q: QuestionView, before: Seq<u8>, after: Seq<u8>)
    requires
        valid_question(q),
    ensures
        question_parsed(before + question_wire(q) + after, before.len() as int) == (Parsed {
            outcome: Ok::<QuestionView, ParseError>(q),
            next: (before.len() + question_wire(q).len()) as int,
        }),
{
    let buf = before + question_wire(q) + after;
    let tail = be16(type_code(q.typez)) + be16(class_code(q.class)) + after;
    assert(buf =~= before + name_wire(q.name) + tail);
    lemma_name_round_trip(q.name, before, tail);
    let at = (before.len() + name_wire(q.name).len()) as int;
    assert(buf[at] == 0 && buf[at + 1] == 1 && buf[at + 2] == 0 && buf[at + 3] == 1);
}

} // verus!
