//! Answer records: a name, a type, a class, a time to live and a payload.

use crate::error::Error;
use crate::question::{questions_view, DnsMessageQuestion, Question};
use crate::wire::{
    be16, be16_bytes, be32, be32_bytes, lemma_be16_round_trip, lemma_be32_round_trip, push_u16,
    push_u32, read_u16, read_u32,
};
use vstd::prelude::*;
use vstd::std_specs::convert::FromSpecImpl;

verus! {

/// Seconds that an answer made up by this server may be cached.
pub const LOCAL_TTL: u32 = 60;

/// One entry of the answer section. `length` is the number of bytes in `data`.
#[derive(Debug, PartialEq, Eq)]
pub struct DnsMessageResponse {
    pub name: Vec<u8>,
    pub qtype: u16,
    pub class: u16,
    pub ttl: u32,
    pub length: u16,
    pub data: Vec<u8>,
}

/// An answer record as a mathematical value.
pub struct Answer {
    pub name: Seq<u8>,
    pub qtype: u16,
    pub class: u16,
    pub ttl: u32,
    pub length: u16,
    pub data: Seq<u8>,
}

impl View for DnsMessageResponse {
    type V = Answer;

    open spec fn view(&self) -> Answer {
        Answer {
            name: self.name@,
            qtype: self.qtype,
            class: self.class,
            ttl: self.ttl,
            length: self.length,
            data: self.data@,
        }
    }
}

impl Clone for DnsMessageResponse {
    fn clone(&self) -> (copy: DnsMessageResponse)
        ensures
            copy@ == self@,
    {
        let mut name: Vec<u8> = Vec::new();
        name.extend_from_slice(self.name.as_slice());
        let mut data: Vec<u8> = Vec::new();
        data.extend_from_slice(self.data.as_slice());
        assert(name@ =~= self.name@);
        assert(data@ =~= self.data@);
        DnsMessageResponse {
            name,
            qtype: self.qtype,
            class: self.class,
            ttl: self.ttl,
            length: self.length,
            data,
        }
    }
}

impl Answer {
    /// The bytes that encode this record: the name as it is, then type,
    /// class, time to live and payload length, all big-endian, then the
    /// payload.
    pub open spec fn wire(self) -> Seq<u8> {
        self.name + be16_bytes(self.qtype) + be16_bytes(self.class) + be32_bytes(self.ttl)
            + be16_bytes(self.length) + self.data
    }

    /// The declared payload length is the length of the payload.
    pub open spec fn well_formed(self) -> bool {
        self.length == self.data.len()
    }

    /// The name is one or more non-zero bytes and then a zero byte, which is
    /// how the name of a record is delimited when it is decoded.
    pub open spec fn has_inline_name(self) -> bool {
        &&& self.name.len() >= 2
        &&& self.name.last() == 0
        &&& forall|i: int| 0 <= i < self.name.len() - 1 ==> self.name[i] != 0
    }
}

/// The answers that a vector holds, as mathematical values.
pub open spec fn answers_view(answers: Seq<DnsMessageResponse>) -> Seq<Answer> {
    Seq::new(answers.len(), |i: int| answers[i]@)
}

/// The encodings of `answers`, one behind the other.
pub open spec fn answers_wire(answers: Seq<Answer>) -> Seq<u8>
    decreases answers.len(),
{
    if answers.len() == 0 {
        Seq::empty()
    } else {
        answers_wire(answers.drop_last()) + answers.last().wire()
    }
}

/// The answers that this server makes up for `questions`, one for each, in
/// their order.
pub open spec fn local_answers(questions: Seq<Question>) -> Seq<Answer> {
    Seq::new(questions.len(), |i: int| local_answer(questions[i]))
}

/// The offset of the first zero byte of `data` at or after `from`, or the
/// length of `data` where there is none.
pub open spec fn first_zero(data: Seq<u8>, from: int) -> int
    decreases data.len() - from,
{
    if from < 0 || from >= data.len() {
        data.len() as int
    } else if data[from] == 0 {
        from
    } else {
        first_zero(data, from + 1)
    }
}

/// The record that `data` opens with; `None` where the bytes are no record.
///
/// The name of a record is taken to be inline: it runs up to and including the
/// first zero byte, and a compression pointer in it is not followed. Ten bytes
/// of type, class, time to live and payload length follow it, then as many
/// bytes of payload as that length says. Empty input, a zero byte at the very
/// start, no zero byte at all, fewer than ten bytes behind the name, and fewer
/// payload bytes than declared make the bytes no record.
pub open spec fn answer_at(data: Seq<u8>) -> Option<Answer> {
    let fixed = first_zero(data, 0) + 1;
    if fixed == 1 || fixed > data.len() || fixed + 10 > data.len() {
        None
    } else {
        let length = be16(data[fixed + 8], data[fixed + 9]);
        if fixed + 10 + length > data.len() {
            None
        } else {
            Some(
                Answer {
                    name: data.subrange(0, fixed),
                    qtype: be16(data[fixed], data[fixed + 1]),
                    class: be16(data[fixed + 2], data[fixed + 3]),
                    ttl: be32(data[fixed + 4], data[fixed + 5], data[fixed + 6], data[fixed + 7]),
                    length,
                    data: data.subrange(fixed + 10, fixed + 10 + length),
                },
            )
        }
    }
}

/// The answer that this server makes up for a question when it has nobody to
/// ask: the question's name, type and class, a time to live of 60 seconds, and
/// the four bytes of a fixed address.
pub open spec fn local_answer(question: Question) -> Answer {
    Answer {
        name: question.name,
        qtype: question.qtype,
        class: question.class,
        ttl: 60,
        length: 4,
        data: seq![8u8, 8u8, 8u8, 8u8],
    }
}

/// The offset of a zero byte that no zero byte precedes is the first zero.
pub proof fn lemma_first_zero_found(data: Seq<u8>, from: int, zero: int)
    requires
        0 <= from <= zero < data.len(),
        data[zero] == 0,
        forall|i: int| from <= i < zero ==> data[i] != 0,
    ensures
        first_zero(data, from) == zero,
    decreases zero - from,
{
    if from < zero {
        lemma_first_zero_found(data, from + 1, zero);
    }
}

/// Decoding the encoding of a record gives the record back, whatever follows
/// it: for every record whose declared length is that of its payload and
/// whose name is inline.
pub proof fn lemma_answer_round_trip(answer: Answer, after: Seq<u8>)
    requires
        answer.well_formed(),
        answer.has_inline_name(),
    ensures
        answer_at(answer.wire() + after) == Some(answer),
{
    let data = answer.wire() + after;
    let fixed: int = answer.name.len() as int;
    assert forall|i: int| 0 <= i < fixed - 1 implies data[i] != 0 by {
        assert(data[i] == answer.name[i]);
    }
    assert(data[fixed - 1] == answer.name.last());
    lemma_first_zero_found(data, 0, fixed - 1);
    lemma_be16_round_trip(answer.qtype);
    lemma_be16_round_trip(answer.class);
    lemma_be32_round_trip(answer.ttl);
    lemma_be16_round_trip(answer.length);
    assert(data[fixed] == be16_bytes(answer.qtype)[0]);
    assert(data[fixed + 1] == be16_bytes(answer.qtype)[1]);
    assert(data[fixed + 2] == be16_bytes(answer.class)[0]);
    assert(data[fixed + 3] == be16_bytes(answer.class)[1]);
    assert(data[fixed + 4] == be32_bytes(answer.ttl)[0]);
    assert(data[fixed + 5] == be32_bytes(answer.ttl)[1]);
    assert(data[fixed + 6] == be32_bytes(answer.ttl)[2]);
    assert(data[fixed + 7] == be32_bytes(answer.ttl)[3]);
    assert(data[fixed + 8] == be16_bytes(answer.length)[0]);
    assert(data[fixed + 9] == be16_bytes(answer.length)[1]);
    assert(data.subrange(0, fixed) =~= answer.name);
    assert(data.subrange(fixed + 10, fixed + 10 + answer.length) =~= answer.data);
}

/// Decodes the answer record that `data` opens with.
///
/// Fails with `InvalidResponse` where the bytes are no record.
pub fn dns_response_from_bytes(data: &[u8]) -> (decoded: Result<DnsMessageResponse, Error>)
    ensures
        match answer_at(data@) {
            Some(answer) => decoded matches Ok(found) && found@ == answer && answer.well_formed(),
            None => decoded == Err::<DnsMessageResponse, Error>(Error::InvalidResponse),
        },
{
    if data.len() == 0 || data[0] == 0 {
        return Err(Error::InvalidResponse);
    }
    let mut end: usize = 0;
    while end < data.len() && data[end] != 0
        invariant
            end <= data@.len(),
            first_zero(data@, 0) == first_zero(data@, end as int),
        decreases data@.len() - end,
    {
        end = end + 1;
    }
    if end == data.len() {
        return Err(Error::InvalidResponse);
    }
    let fixed: usize = end + 1;
    if data.len() - fixed < 10 {
        return Err(Error::InvalidResponse);
    }
    let mut name: Vec<u8> = Vec::new();
    name.extend_from_slice(&data[0..fixed]);

    let qtype = read_u16(data, fixed);
    let class = read_u16(data, fixed + 2);
    let ttl = read_u32(data, fixed + 4);
    let length = read_u16(data, fixed + 8);

    let data_start_idx: usize = fixed + 10;
    if data.len() - data_start_idx < length as usize {
        return Err(Error::InvalidResponse);
    }
    let mut payload: Vec<u8> = Vec::new();
    payload.extend_from_slice(&data[data_start_idx..data_start_idx + length as usize]);
    assert(name@ =~= data@.subrange(0, fixed as int));
    assert(payload@ =~= data@.subrange(data_start_idx as int, data_start_idx + length));

    Ok(DnsMessageResponse { name, qtype, class, ttl, length, data: payload })
}

/// Makes up the answer to `question` that is given when no upstream resolver
/// is configured.
pub fn synthesize_answer(question: &DnsMessageQuestion) -> (answer: DnsMessageResponse)
    ensures
        answer@ == local_answer(question@),
        answer@.well_formed(),
{
    let mut name: Vec<u8> = Vec::new();
    name.extend_from_slice(question.name.as_slice());
    let mut data: Vec<u8> = Vec::new();
    data.push(8);
    data.push(8);
    data.push(8);
    data.push(8);
    assert(name@ =~= question.name@);
    assert(data@ =~= seq![8u8, 8u8, 8u8, 8u8]);
    DnsMessageResponse {
        name,
        qtype: question.qtype,
        class: question.class,
        ttl: LOCAL_TTL,
        length: 4,
        data,
    }
}

impl From<&DnsMessageResponse> for Vec<u8> {
    /// Encodes a record: name, type, class, time to live, payload length,
    /// payload.
    fn from(response: &DnsMessageResponse) -> (buf: Vec<u8>)
        ensures
            buf@ == response@.wire(),
    {
        let mut buf: Vec<u8> = Vec::new();
        buf.extend_from_slice(response.name.as_slice());
        push_u16(&mut buf, response.qtype);
        push_u16(&mut buf, response.class);
        push_u32(&mut buf, response.ttl);
        push_u16(&mut buf, response.length);
        buf.extend_from_slice(response.data.as_slice());
        assert(buf@ =~= response@.wire());
        buf
    }
}

/// Encodes `answers` one behind the other, in their order.
pub fn encode_answers(answers: &[DnsMessageResponse]) -> (bytes: Vec<u8>)
    ensures
        bytes@ == answers_wire(answers_view(answers@)),
{
    let mut bytes: Vec<u8> = Vec::new();
    let mut done: usize = 0;
    let ghost all = answers_view(answers@);
    assert(all.take(0) =~= Seq::empty());
    while done < answers.len()
        invariant
            done <= answers@.len(),
            all == answers_view(answers@),
            bytes@ == answers_wire(all.take(done as int)),
        decreases answers@.len() - done,
    {
        let one: Vec<u8> = Vec::from(&answers[done]);
        let ghost before = bytes@;
        bytes.extend_from_slice(one.as_slice());
        proof {
            let longer = all.take(done + 1);
            assert(longer.drop_last() =~= all.take(done as int));
            assert(longer.last() == answers@[done as int]@);
            assert(bytes@ =~= before + one@);
        }
        done = done + 1;
    }
    assert(all.take(done as int) =~= all);
    bytes
}

/// Makes up one answer for each of `questions`, in their order.
pub fn synthesize_answers(questions: &[DnsMessageQuestion]) -> (answers: Vec<DnsMessageResponse>)
    ensures
        answers_view(answers@) == local_answers(questions_view(questions@)),
{
    let mut answers: Vec<DnsMessageResponse> = Vec::new();
    let mut done: usize = 0;
    while done < questions.len()
        invariant
            done <= questions@.len(),
            answers@.len() == done,
            forall|i: int|
                0 <= i < done ==> (#[trigger] answers@[i])@ == local_answer(questions@[i]@),
        decreases questions@.len() - done,
    {
        answers.push(synthesize_answer(&questions[done]));
        done = done + 1;
    }
    assert(answers_view(answers@) =~= local_answers(questions_view(questions@)));
    answers
}

/// A `Vec` is no mathematical value, so the conversion has no spec-level
/// result; what it returns is stated on `from` itself.
impl FromSpecImpl<&DnsMessageResponse> for Vec<u8> {
    open spec fn obeys_from_spec() -> bool {
        false
    }

    open spec fn from_spec(response: &DnsMessageResponse) -> Vec<u8> {
        arbitrary()
    }
}

} // verus!
