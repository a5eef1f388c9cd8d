//! Questions: a name, a type and a class.

use crate::error::Error;
use crate::name::{
    is_name, lemma_expand_gives_a_name, lemma_name_round_trip, lemma_span_reads_inline_bytes_only,
    lemma_span_within, name_at, name_span, parse_labels,
};
use crate::wire::{be16, be16_bytes, lemma_be16_round_trip, push_u16, read_u16};
use vstd::prelude::*;
use vstd::std_specs::convert::FromSpecImpl;

verus! {

/// One entry of the question section. `name` holds the expanded name.
#[derive(Debug, PartialEq, Eq)]
pub struct DnsMessageQuestion {
    pub name: Vec<u8>,
    pub qtype: u16,
    pub class: u16,
}

/// A question as a mathematical value.
pub struct Question {
    pub name: Seq<u8>,
    pub qtype: u16,
    pub class: u16,
}

impl View for DnsMessageQuestion {
    type V = Question;

    open spec fn view(&self) -> Question {
        Question { name: self.name@, qtype: self.qtype, class: self.class }
    }
}

impl Clone for DnsMessageQuestion {
    fn clone(&self) -> (copy: DnsMessageQuestion)
        ensures
            copy@ == self@,
    {
        let mut name: Vec<u8> = Vec::new();
        name.extend_from_slice(self.name.as_slice());
        assert(name@ =~= self.name@);
        DnsMessageQuestion { name, qtype: self.qtype, class: self.class }
    }
}

impl Question {
    /// The bytes that encode this question: the name as it is, then the type
    /// and the class, each as a big-endian `u16`.
    pub open spec fn wire(self) -> Seq<u8> {
        self.name + be16_bytes(self.qtype) + be16_bytes(self.class)
    }

    /// The name is an expanded name with at least one label.
    pub open spec fn well_formed(self) -> bool {
        is_name(self.name) && self.name.len() > 1
    }
}

/// The questions that a vector holds, as mathematical values.
pub open spec fn questions_view(questions: Seq<DnsMessageQuestion>) -> Seq<Question> {
    Seq::new(questions.len(), |i: int| questions[i]@)
}

/// The question that starts at `pos` in `msg`, with the offset of the first
/// byte behind it; `None` where the bytes are no question.
///
/// A question is a name with at least one label, which may end in a
/// compression pointer, directly followed by two bytes of type and two of
/// class. A zero byte at `pos`, bytes that are no name, and fewer than four
/// bytes behind the name make the bytes no question.
pub open spec fn question_at(msg: Seq<u8>, pos: int) -> Option<(Question, int)> {
    if pos < 0 || pos >= msg.len() || msg[pos] == 0 {
        None
    } else {
        match name_at(msg, pos) {
            None => None,
            Some(name) => {
                let fields = pos + name_span(msg, pos);
                if fields + 4 > msg.len() {
                    None
                } else {
                    Some(
                        (
                            Question {
                                name,
                                qtype: be16(msg[fields], msg[fields + 1]),
                                class: be16(msg[fields + 2], msg[fields + 3]),
                            },
                            fields + 4,
                        ),
                    )
                }
            },
        }
    }
}

/// The first `count` questions that stand one behind the other from `start`
/// on, in their order in the message, with the offset of the first byte behind
/// the last of them; `None` where one of them is no question.
pub open spec fn questions_upto(msg: Seq<u8>, start: int, count: nat) -> Option<
    (Seq<Question>, int),
>
    decreases count,
{
    if count == 0 {
        Some((Seq::empty(), start))
    } else {
        match questions_upto(msg, start, (count - 1) as nat) {
            None => None,
            Some((earlier, cursor)) => match question_at(msg, cursor) {
                None => None,
                Some((question, next)) => Some((earlier.push(question), next)),
            },
        }
    }
}

/// The encodings of `questions`, one behind the other.
pub open spec fn questions_wire(questions: Seq<Question>) -> Seq<u8>
    decreases questions.len(),
{
    if questions.len() == 0 {
        Seq::empty()
    } else {
        questions_wire(questions.drop_last()) + questions.last().wire()
    }
}

/// Once one question fails to decode, asking for more questions fails too.
pub proof fn lemma_questions_failure_stays(msg: Seq<u8>, start: int, count: nat, more: nat)
    requires
        count <= more,
        questions_upto(msg, start, count) is None,
    ensures
        questions_upto(msg, start, more) is None,
    decreases more,
{
    if count < more {
        lemma_questions_failure_stays(msg, start, count, (more - 1) as nat);
    }
}

/// Decoded questions come in the number asked for, each with an expanded
/// name, and the cursor behind them is an offset within the message, at or
/// after the start.
pub proof fn lemma_questions_shape(msg: Seq<u8>, start: int, count: nat)
    ensures
        questions_upto(msg, start, count) matches Some((questions, end)) ==> {
            &&& questions.len() == count
            &&& start <= end
            &&& count > 0 ==> end <= msg.len()
            &&& forall|i: int| 0 <= i < count ==> is_name((#[trigger] questions[i]).name)
        },
    decreases count,
{
    if count > 0 {
        lemma_questions_shape(msg, start, (count - 1) as nat);
        if let Some((earlier, cursor)) = questions_upto(msg, start, (count - 1) as nat) {
            lemma_span_within(msg, cursor, msg.len());
            lemma_expand_gives_a_name(msg, cursor, msg.len());
        }
    }
}

/// Questions that were encoded one behind the other decode to the same
/// questions, in the same order, whatever stands before and after them: for
/// every sequence of questions whose names are expanded and have a label.
pub proof fn lemma_questions_round_trip(before: Seq<u8>, questions: Seq<Question>, after: Seq<u8>)
    requires
        forall|i: int| 0 <= i < questions.len() ==> (#[trigger] questions[i]).well_formed(),
    ensures
        questions_upto(
            before + questions_wire(questions) + after,
            before.len() as int,
            questions.len(),
        ) == Some((questions, (before.len() + questions_wire(questions).len()) as int)),
    decreases questions.len(),
{
    let msg = before + questions_wire(questions) + after;
    if questions.len() == 0 {
        assert(questions =~= Seq::empty());
    } else {
        let earlier = questions.drop_last();
        let last = questions.last();
        let cursor: int = (before.len() + questions_wire(earlier).len()) as int;
        assert(before + questions_wire(earlier) + (last.wire() + after) =~= msg);
        lemma_questions_round_trip(before, earlier, last.wire() + after);
        let tail = be16_bytes(last.qtype) + be16_bytes(last.class) + after;
        assert((before + questions_wire(earlier)) + last.name + tail =~= msg);
        lemma_name_round_trip(before + questions_wire(earlier), last.name, tail, msg.len());
        lemma_be16_round_trip(last.qtype);
        lemma_be16_round_trip(last.class);
        let fields: int = cursor + last.name.len();
        assert(msg[cursor] == last.name[0]);
        assert(msg[fields] == be16_bytes(last.qtype)[0]);
        assert(msg[fields + 1] == be16_bytes(last.qtype)[1]);
        assert(msg[fields + 2] == be16_bytes(last.class)[0]);
        assert(msg[fields + 3] == be16_bytes(last.class)[1]);
        assert(earlier.push(last) =~= questions);
    }
}

/// Two messages of which one is the beginning of the other, on both of which
/// the questions decode, decode them over the same bytes.
proof fn lemma_questions_end_of_prefix(msg: Seq<u8>, keep: int, start: int, count: nat)
    requires
        0 <= keep <= msg.len(),
        questions_upto(msg, start, count) is Some,
        questions_upto(msg.take(keep), start, count) is Some,
    ensures
        questions_upto(msg.take(keep), start, count).unwrap().1 == questions_upto(
            msg,
            start,
            count,
        ).unwrap().1,
    decreases count,
{
    if count > 0 {
        let kept = msg.take(keep);
        lemma_questions_end_of_prefix(msg, keep, start, (count - 1) as nat);
        let cursor = questions_upto(msg, start, (count - 1) as nat).unwrap().1;
        lemma_span_within(kept, cursor, kept.len());
        let span = name_span(kept, cursor);
        assert(kept.subrange(cursor, cursor + span) =~= msg.subrange(cursor, cursor + span));
        lemma_span_reads_inline_bytes_only(kept, msg, cursor);
    }
}

/// A message that ends before its last question does is rejected: when
/// `count` questions decode and end at some offset, every shorter beginning
/// of the message that still holds the start of the question section has no
/// `count` questions, down to the loss of a single byte of the last class.
pub proof fn lemma_truncated_questions_rejected(msg: Seq<u8>, start: int, count: nat, keep: int)
    requires
        questions_upto(msg, start, count) is Some,
        0 <= start <= keep < questions_upto(msg, start, count).unwrap().1,
    ensures
        questions_upto(msg.take(keep), start, count) is None,
{
    lemma_questions_shape(msg, start, count);
    if questions_upto(msg.take(keep), start, count) is Some {
        lemma_questions_end_of_prefix(msg, keep, start, count);
        lemma_questions_shape(msg.take(keep), start, count);
    }
}

/// Decodes the question that starts at `q_index` in the message `data`.
///
/// Returns the question and the number of bytes that it occupies at
/// `q_index`. Fails with `InvalidQuestion` where the bytes are no question.
pub fn parse_question(
    data: &[u8],
    q_index: usize,
) -> (parsed: Result<(DnsMessageQuestion, usize), Error>)
    ensures
        match question_at(data@, q_index as int) {
            Some((question, next)) => parsed matches Ok((found, size)) && found@ == question
                && q_index + size == next,
            None => parsed == Err::<(DnsMessageQuestion, usize), Error>(Error::InvalidQuestion),
        },
        parsed matches Ok((found, size)) ==> is_name(found.name@) && q_index + size
            <= data@.len() <= usize::MAX,
{
    if q_index >= data.len() {
        return Err(Error::InvalidQuestion);
    }
    if data[q_index] == 0 {
        return Err(Error::InvalidQuestion);
    }
    let (labels, label_size_in_bytes) = match parse_labels(data, q_index) {
        Ok(found) => found,
        Err(_) => {
            return Err(Error::InvalidQuestion);
        },
    };
    proof {
        lemma_span_within(data@, q_index as int, data@.len());
    }
    let fields: usize = q_index + label_size_in_bytes;
    if data.len() - fields < 4 {
        return Err(Error::InvalidQuestion);
    }
    let qtype = read_u16(data, fields);
    let class = read_u16(data, fields + 2);
    Ok((DnsMessageQuestion { name: labels, qtype, class }, label_size_in_bytes + 4))
}

/// Decodes `nr_of_questions` questions that stand one behind the other in the
/// message `data`, the first at `offset`. Compression pointers count from the
/// first byte of `data`.
///
/// Returns the questions in their order in the message. Fails with
/// `InvalidQuestion` where one of them is no question.
pub fn dns_questions_from_bytes(
    data: &[u8],
    offset: usize,
    nr_of_questions: u16,
) -> (decoded: Result<Vec<DnsMessageQuestion>, Error>)
    ensures
        match questions_upto(data@, offset as int, nr_of_questions as nat) {
            Some((questions, _)) => decoded matches Ok(found) && questions_view(found@)
                == questions,
            None => decoded == Err::<Vec<DnsMessageQuestion>, Error>(Error::InvalidQuestion),
        },
        decoded matches Ok(found) ==> found@.len() == nr_of_questions && forall|i: int|
            0 <= i < found@.len() ==> is_name((#[trigger] found@[i]).name@),
{
    let mut questions: Vec<DnsMessageQuestion> = Vec::new();
    let mut index: usize = offset;
    let mut done: u16 = 0;
    assert(questions_view(questions@) =~= Seq::empty());
    while done < nr_of_questions
        invariant
            done <= nr_of_questions,
            questions_upto(data@, offset as int, done as nat) == Some(
                (questions_view(questions@), index as int),
            ),
        decreases nr_of_questions - done,
    {
        let (question, size_in_bytes) = match parse_question(data, index) {
            Ok(found) => found,
            Err(_) => {
                proof {
                    lemma_questions_failure_stays(
                        data@,
                        offset as int,
                        (done + 1) as nat,
                        nr_of_questions as nat,
                    );
                }
                return Err(Error::InvalidQuestion);
            },
        };
        let ghost before = questions@;
        index = index + size_in_bytes;
        questions.push(question);
        done = done + 1;
        assert(questions_view(questions@) =~= questions_view(before).push(question@));
    }
    proof {
        lemma_questions_shape(data@, offset as int, nr_of_questions as nat);
        assert forall|i: int| 0 <= i < questions@.len() implies is_name(
            (#[trigger] questions@[i]).name@,
        ) by {
            assert(questions_view(questions@)[i].name == questions@[i].name@);
        }
    }
    Ok(questions)
}

impl From<&DnsMessageQuestion> for Vec<u8> {
    /// Encodes a question: its name as it is, then type and class.
    fn from(question: &DnsMessageQuestion) -> (buf: Vec<u8>)
        ensures
            buf@ == question@.wire(),
    {
        let mut buf: Vec<u8> = Vec::new();
        buf.extend_from_slice(question.name.as_slice());
        push_u16(&mut buf, question.qtype);
        push_u16(&mut buf, question.class);
        assert(buf@ =~= question@.wire());
        buf
    }
}

/// Encodes `questions` one behind the other, in their order.
pub fn encode_questions(questions: &[DnsMessageQuestion]) -> (bytes: Vec<u8>)
    ensures
        bytes@ == questions_wire(questions_view(questions@)),
{
    let mut bytes: Vec<u8> = Vec::new();
    let mut done: usize = 0;
    let ghost all = questions_view(questions@);
    assert(all.take(0) =~= Seq::empty());
    while done < questions.len()
        invariant
            done <= questions@.len(),
            all == questions_view(questions@),
            bytes@ == questions_wire(all.take(done as int)),
        decreases questions@.len() - done,
    {
        let one: Vec<u8> = Vec::from(&questions[done]);
        let ghost before = bytes@;
        bytes.extend_from_slice(one.as_slice());
        proof {
            let longer = all.take(done + 1);
            assert(longer.drop_last() =~= all.take(done as int));
            assert(longer.last() == questions@[done as int]@);
            assert(bytes@ =~= before + one@);
        }
        done = done + 1;
    }
    assert(all.take(done as int) =~= all);
    bytes
}

/// A `Vec` is no mathematical value, so the conversion has no spec-level
/// result; what it returns is stated on `from` itself.
impl FromSpecImpl<&DnsMessageQuestion> for Vec<u8> {
    open spec fn obeys_from_spec() -> bool {
        false
    }

    open spec fn from_spec(question: &DnsMessageQuestion) -> Vec<u8> {
        arbitrary()
    }
}

} // verus!
