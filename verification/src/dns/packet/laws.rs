//! What holds of encoding, decoding, splitting and merging taken together.

use crate::common::{ParseError, Parsed};
use crate::dns::answer::{answer_wire, lemma_answer_round_trip, valid_answer, AnswerView};
use crate::dns::header::{
    fits_wire, header_parsed, header_wire, lemma_header_round_trip, Header,
};
use crate::dns::packet::{
    all_answers, all_questions, answers_encodable, answers_parsed, answers_wire, built,
    built_header, merged, packet_parsed, packet_wire, questions_parsed, questions_wire,
    reply_parsed, split_piece, wrapped_count, PacketView,
};
use crate::dns::question::{
    lemma_question_round_trip, question_wire, valid_question, QuestionView,
};
use vstd::prelude::*;

verus! {

/// A message as building makes it, of well-formed questions and answers
/// that its header can count.
pub open spec fn valid_packet(p: PacketView) -> bool {
    &&& p.questions.len() < 0x1_0000
    &&& p.answers.len() < 0x1_0000
    &&& p.header.opcode < 16
    &&& p.header.rd < 2
    &&& p.header == built_header(p.header, p.questions.len(), p.answers.len())
    &&& forall|i: int| 0 <= i < p.questions.len() ==> valid_question(#[trigger] p.questions[i])
    &&& forall|i: int| 0 <= i < p.answers.len() ==> valid_answer(#[trigger] p.answers[i])
}

/// Decoding the wire forms of valid questions gives the questions back, in
/// order, and leaves the cursor behind them.
pub proof fn lemma_questions_round_trip(
    questions: Seq<QuestionView>,
    before: Seq<u8>,
    after: Seq<u8>,
)
    requires
        forall|i: int| 0 <= i < questions.len() ==> valid_question(#[trigger] questions[i]),
    ensures
        questions_parsed(
            before + questions_wire(questions) + after,
            before.len() as int,
            questions.len(),
        ) == (Parsed {
            outcome: Ok::<Seq<QuestionView>, ParseError>(questions),
            next: (before.len() + questions_wire(questions).len()) as int,
        }),
    decreases questions.len(),
{
    let buf = before + questions_wire(questions) + after;
    if questions.len() == 0 {
        assert(questions =~= Seq::<QuestionView>::empty());
    } else {
        let first = questions[0];
        let others = questions.drop_first();
        let tail = questions_wire(others) + after;
        assert(valid_question(first));
        assert forall|i: int| 0 <= i < others.len() implies valid_question(#[trigger] others[i]) by {
            assert(others[i] == questions[i + 1]);
        }
        assert(buf =~= before + question_wire(first) + tail);
        lemma_question_round_trip(first, before, tail);
        let done = before + question_wire(first);
        assert(buf =~= done + questions_wire(others) + after);
        lemma_questions_round_trip(others, done, after);
        assert(seq![first] + others =~= questions);
    }
}

/// Decoding the wire forms of valid answers gives the answers back, in
/// order, and leaves the cursor behind them.
pub proof fn lemma_answers_round_trip(answers: Seq<AnswerView>, before: Seq<u8>, after: Seq<u8>)
    requires
        forall|i: int| 0 <= i < answers.len() ==> valid_answer(#[trigger] answers[i]),
    ensures
        answers_parsed(before + answers_wire(answers) + after, before.len() as int, answers.len())
            == (Parsed {
            outcome: Ok::<Seq<AnswerView>, ParseError>(answers),
            next: (before.len() + answers_wire(answers).len()) as int,
        }),
    decreases answers.len(),
{
    let buf = before + answers_wire(answers) + after;
    if answers.len() == 0 {
        assert(answers =~= Seq::<AnswerView>::empty());
    } else {
        let first = answers[0];
        let others = answers.drop_first();
        let tail = answers_wire(others) + after;
        assert(valid_answer(first));
        assert forall|i: int| 0 <= i < others.len() implies valid_answer(#[trigger] others[i]) by {
            assert(others[i] == answers[i + 1]);
        }
        assert(buf =~= before + answer_wire(first) + tail);
        lemma_answer_round_trip(first, before, tail);
        let done = before + answer_wire(first);
        assert(buf =~= done + answers_wire(others) + after);
        lemma_answers_round_trip(others, done, after);
        assert(seq![first] + others =~= answers);
    }
}

/// Building makes a valid message of well-formed questions and answers, as
/// long as the header can count them and the two fields that pass through
/// fit their width. Its header then holds the two counts as they are.
pub proof fn lemma_built_is_valid(parts: PacketView)
    requires
        parts.questions.len() < 0x1_0000,
        parts.answers.len() < 0x1_0000,
        parts.header.opcode < 16,
        parts.header.rd < 2,
        forall|i: int|
            0 <= i < parts.questions.len() ==> valid_question(#[trigger] parts.questions[i]),
        forall|i: int| 0 <= i < parts.answers.len() ==> valid_answer(#[trigger] parts.answers[i]),
    ensures
        valid_packet(built(parts)),
        built(parts).header.qdcount == parts.questions.len(),
        built(parts).header.ancount == parts.answers.len(),
        built(built(parts)) == built(parts),
{
}

/// The header of a valid message fits the wire and counts its records.
pub proof fn lemma_valid_header(p: PacketView)
    requires
        valid_packet(p),
    ensures
        fits_wire(p.header),
        p.header.qdcount == p.questions.len(),
        p.header.ancount == p.answers.len(),
        built(p) == p,
{
}

/// Five byte strings in a row are the same bytes however they are
/// grouped.
proof fn lemma_regroup(a: Seq<u8>, b: Seq<u8>, c: Seq<u8>, d: Seq<u8>, e: Seq<u8>)
    ensures
        a + (b + c + d) + e == a + b + (c + d + e),
        a + (b + c + d) + e == (a + b) + c + (d + e),
        a + (b + c + d) + e == (a + b + c) + d + e,
        (a + b + c).len() == a.len() + b.len() + c.len(),
        (b + c + d).len() == b.len() + c.len() + d.len(),
{
    assert(a + (b + c + d) + e =~= a + b + (c + d + e));
    assert(a + (b + c + d) + e =~= (a + b) + c + (d + e));
    assert(a + (b + c + d) + e =~= (a + b + c) + d + e);
}

/// Within the wire form of a message whose answers are valid, decoding
/// finds the answers behind the header and the questions.
proof fn lemma_answers_in_packet(p: PacketView, before: Seq<u8>, after: Seq<u8>)
    requires
        forall|i: int| 0 <= i < p.answers.len() ==> valid_answer(#[trigger] p.answers[i]),
    ensures
        answers_parsed(
            before + packet_wire(p) + after,
            (before.len() + header_wire(p.header).len() + questions_wire(p.questions).len()) as int,
            p.answers.len(),
        ) == (Parsed {
            outcome: Ok::<Seq<AnswerView>, ParseError>(p.answers),
            next: (before.len() + packet_wire(p).len()) as int,
        }),
{
    let hw = header_wire(p.header);
    let qw = questions_wire(p.questions);
    let aw = answers_wire(p.answers);
    lemma_regroup(before, hw, qw, aw, after);
    lemma_answers_round_trip(p.answers, before + hw + qw, after);
}

/// Within the wire form of a message whose questions are valid, decoding
/// finds the questions behind the header.
proof fn lemma_questions_in_packet(p: PacketView, before: Seq<u8>, after: Seq<u8>)
    requires
        forall|i: int| 0 <= i < p.questions.len() ==> valid_question(#[trigger] p.questions[i]),
    ensures
        questions_parsed(
            before + packet_wire(p) + after,
            (before.len() + header_wire(p.header).len()) as int,
            p.questions.len(),
        ) == (Parsed {
            outcome: Ok::<Seq<QuestionView>, ParseError>(p.questions),
            next: (before.len() + header_wire(p.header).len() + questions_wire(
                p.questions,
            ).len()) as int,
        }),
{
    let hw = header_wire(p.header);
    let qw = questions_wire(p.questions);
    let aw = answers_wire(p.answers);
    lemma_regroup(before, hw, qw, aw, after);
    lemma_questions_round_trip(p.questions, before + hw, aw + after);
}

/// Within the wire form of a message whose header fits the wire, decoding
/// finds the header first.
proof fn lemma_header_in_packet(p: PacketView, before: Seq<u8>, after: Seq<u8>)
    requires
        fits_wire(p.header),
    ensures
        header_wire(p.header).len() == 12,
        header_parsed(before + packet_wire(p) + after, before.len() as int) == (Parsed {
            outcome: Ok::<Header, ParseError>(p.header),
            next: (before.len() + 12) as int,
        }),
{
    let hw = header_wire(p.header);
    let qw = questions_wire(p.questions);
    let aw = answers_wire(p.answers);
    lemma_regroup(before, hw, qw, aw, after);
    lemma_header_round_trip(p.header, before, qw + aw + after);
}

/// Round trip of a whole message: decoding the wire form of a valid
/// message as a reply gives back its header with its counts, its questions
/// and its answers, and leaves the cursor behind the last byte.
pub proof fn lemma_reply_round_trip(p: PacketView, before: Seq<u8>, after: Seq<u8>)
    requires
        valid_packet(p),
    ensures
        reply_parsed(before + packet_wire(p) + after, before.len() as int) == (Parsed {
            outcome: Ok::<PacketView, ParseError>(p),
            next: (before.len() + packet_wire(p).len()) as int,
        }),
{
    lemma_valid_header(p);
    lemma_header_in_packet(p, before, after);
    lemma_questions_in_packet(p, before, after);
    lemma_answers_in_packet(p, before, after);
}

/// Round trip of a query: decoding the wire form of a valid message
/// without answers gives the message back. With answers it does not: a
/// query is decoded without them.
pub proof fn lemma_query_round_trip(p: PacketView, before: Seq<u8>, after: Seq<u8>)
    requires
        valid_packet(p),
        p.answers.len() == 0,
    ensures
        packet_parsed(before + packet_wire(p) + after, before.len() as int) == (Parsed {
            outcome: Ok::<PacketView, ParseError>(p),
            next: (before.len() + packet_wire(p).len()) as int,
        }),
{
    lemma_valid_header(p);
    lemma_header_in_packet(p, before, after);
    lemma_questions_in_packet(p, before, after);
    assert(p.answers =~= Seq::<AnswerView>::empty());
    assert(answers_wire(p.answers).len() == 0);
    lemma_regroup(
        before,
        header_wire(p.header),
        questions_wire(p.questions),
        answers_wire(p.answers),
        after,
    );
}

/// Messages with one question and one answer each hold, taken together, as
/// many questions and answers as there are messages, in their order.
pub proof fn lemma_all_of_singles(packets: Seq<PacketView>)
    requires
        forall|i: int|
            0 <= i < packets.len() ==> (#[trigger] packets[i]).questions.len() == 1
                && packets[i].answers.len() == 1,
    ensures
        all_questions(packets).len() == packets.len(),
        all_answers(packets).len() == packets.len(),
        forall|i: int|
            0 <= i < packets.len() ==> (#[trigger] all_questions(packets)[i])
                == packets[i].questions[0],
        forall|i: int|
            0 <= i < packets.len() ==> (#[trigger] all_answers(packets)[i])
                == packets[i].answers[0],
    decreases packets.len(),
{
    if packets.len() > 0 {
        let shorter = packets.drop_last();
        assert forall|i: int| 0 <= i < shorter.len() implies (#[trigger] shorter[i]).questions.len()
            == 1 && shorter[i].answers.len() == 1 by {
            assert(shorter[i] == packets[i]);
        }
        lemma_all_of_singles(shorter);
        assert(packets.last() == packets[packets.len() - 1]);
        assert forall|i: int| 0 <= i < packets.len() implies (#[trigger] all_questions(packets)[i])
            == packets[i].questions[0] by {
            if i < shorter.len() {
                assert(shorter[i] == packets[i]);
            }
        }
        assert forall|i: int| 0 <= i < packets.len() implies (#[trigger] all_answers(packets)[i])
            == packets[i].answers[0] by {
            if i < shorter.len() {
                assert(shorter[i] == packets[i]);
            }
        }
    }
}

/// Splitting and merging are inverse by position. Take a message with `n`
/// questions and split it under any identifiers. Let each piece be
/// answered by a message that repeats the piece's question and holds one
/// answer for the name asked. Merged under any identifier, the replies make
/// a message with the `n` questions of the first, in their order, and `n`
/// answers, of which the `i`-th is for the name of the `i`-th question.
pub proof fn lemma_split_merge_by_position(
    p: PacketView,
    ids: Seq<u16>,
    replies: Seq<PacketView>,
    id: u16,
)
    requires
        ids.len() == p.questions.len(),
        replies.len() == p.questions.len(),
        forall|i: int|
            0 <= i < replies.len() ==> (#[trigger] replies[i]).questions == split_piece(
                p,
                i,
                ids[i],
            ).questions && replies[i].answers.len() == 1 && replies[i].answers[0].name
                == p.questions[i].name,
    ensures
        merged(replies, id).questions == p.questions,
        merged(replies, id).answers.len() == p.questions.len(),
        forall|i: int|
            0 <= i < p.questions.len() ==> (#[trigger] merged(replies, id).answers[i]).name
                == merged(replies, id).questions[i].name,
        merged(replies, id).header.id == id,
        merged(replies, id).header.qr == 1,
        merged(replies, id).header.qdcount == wrapped_count(p.questions.len()),
        merged(replies, id).header.ancount == wrapped_count(p.questions.len()),
{
    assert forall|i: int| 0 <= i < replies.len() implies (#[trigger] replies[i]).questions.len()
        == 1 && replies[i].answers.len() == 1 by {
        assert(replies[i].questions == split_piece(p, i, ids[i]).questions);
    }
    lemma_all_of_singles(replies);
    assert forall|i: int| 0 <= i < p.questions.len() implies all_questions(replies)[i]
        == p.questions[i] by {
        assert(replies[i].questions == split_piece(p, i, ids[i]).questions);
    }
    assert(all_questions(replies) =~= p.questions);
}

/// Every piece of a split message holds exactly one question, the one at
/// its place, and no answer. Its header counts them so, carries the
/// identifier given, and agrees with the header of the message split in
/// every flag.
pub proof fn lemma_split_piece_shape(p: PacketView, i: int, id: u16)
    requires
        0 <= i < p.questions.len(),
    ensures
        split_piece(p, i, id).questions == seq![p.questions[i]],
        split_piece(p, i, id).answers.len() == 0,
        split_piece(p, i, id).header.id == id,
        split_piece(p, i, id).header.qdcount == 1,
        split_piece(p, i, id).header.ancount == 0,
        split_piece(p, i, id).header.nscount == 0,
        split_piece(p, i, id).header.arcount == 0,
        split_piece(p, i, id).header.qr == p.header.qr,
        split_piece(p, i, id).header.opcode == p.header.opcode,
        split_piece(p, i, id).header.aa == p.header.aa,
        split_piece(p, i, id).header.tc == p.header.tc,
        split_piece(p, i, id).header.rd == p.header.rd,
        split_piece(p, i, id).header.ra == p.header.ra,
        split_piece(p, i, id).header.z == p.header.z,
        split_piece(p, i, id).header.rcode == p.header.rcode,
        answers_encodable(split_piece(p, i, id).answers),
{
}

/// A piece of a message that building made is itself as building makes it:
/// the flags that a piece keeps are then the ones that building sets.
pub proof fn lemma_split_piece_of_built(parts: PacketView, i: int, id: u16)
    requires
        0 <= i < parts.questions.len(),
    ensures
        built(split_piece(built(parts), i, id)) == split_piece(built(parts), i, id),
{
}

} // verus!
