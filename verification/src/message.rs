//! Whole messages: decoding a request and putting a response together.

use crate::answer::{
    answers_view, answers_wire, encode_answers, local_answers, synthesize_answers, Answer,
    DnsMessageResponse,
};
use crate::buffer::{buffer_with_capacity, freeze, frozen_to_vec, put_slice};
use crate::error::Error;
use crate::header::{DnsMessageHeader, HEADER_LEN};
use crate::question::{
    dns_questions_from_bytes, encode_questions, questions_upto, questions_view, questions_wire,
    DnsMessageQuestion, Question,
};
use vstd::prelude::*;

verus! {

/// Return code of a response to a request that was understood.
pub const RCODE_NO_ERROR: u8 = 0;

/// Return code of a response to a request whose operation is not implemented.
pub const RCODE_NOT_IMPLEMENTED: u8 = 4;

/// What a datagram asks: the header that it opens with, and the questions
/// that follow it, as many as the header counts. `InvalidHeader` where the
/// datagram has no twelve bytes of header, `InvalidQuestion` where one of the
/// questions is none.
pub open spec fn request_of(datagram: Seq<u8>) -> Result<(DnsMessageHeader, Seq<Question>), Error> {
    if datagram.len() < 12 {
        Err(Error::InvalidHeader)
    } else {
        let header = DnsMessageHeader::from_wire(datagram.subrange(0, 12));
        match questions_upto(datagram, 12, header.qd_count as nat) {
            Some((questions, _)) => Ok((header, questions)),
            None => Err(Error::InvalidQuestion),
        }
    }
}

/// The header of the response to `request` that echoes `questions` questions
/// and gives `answers` answers: the request's header, marked as a response,
/// with the two counts set (each modulo 65536, the width of its field) and the
/// return code 0 for operation 0 and 4, not implemented, for every other.
pub open spec fn response_header(request: DnsMessageHeader, questions: nat, answers: nat)
    -> DnsMessageHeader {
    DnsMessageHeader {
        qr: true,
        qd_count: (questions % 65536) as u16,
        an_count: (answers % 65536) as u16,
        rcode: if request.op_code == 0 {
            0
        } else {
            4
        },
        ..request
    }
}

/// The response to `request`: the response header, then the encoded
/// questions, then the encoded answers, each section in its order.
pub open spec fn response_wire(
    request: DnsMessageHeader,
    questions: Seq<Question>,
    answers: Seq<Answer>,
) -> Seq<u8> {
    response_header(request, questions.len(), answers.len()).wire() + questions_wire(questions)
        + answers_wire(answers)
}

/// The answers that go into a response: those that resolving gave, or none
/// at all where resolving failed for any of the questions.
pub open spec fn answers_given(resolution: Result<Vec<DnsMessageResponse>, Error>) -> Seq<Answer> {
    match resolution {
        Ok(answers) => answers_view(answers@),
        Err(_) => Seq::empty(),
    }
}

/// The answers of a server that has no upstream resolver: one made-up answer
/// for each question of a request whose operation is implemented, none for
/// any other request.
pub open spec fn answers_without_resolver(request: DnsMessageHeader, questions: Seq<Question>)
    -> Seq<Answer> {
    if request.op_code == 0 {
        local_answers(questions)
    } else {
        Seq::empty()
    }
}

/// A response to a request whose resolution failed echoes every question and
/// holds no answer, however many answers had been gathered before the
/// failure.
pub proof fn lemma_failure_answers_nothing(
    request: DnsMessageHeader,
    questions: Seq<Question>,
    error: Error,
)
    ensures
        answers_given(Err(error)).len() == 0,
        response_wire(request, questions, answers_given(Err(error))) == response_header(
            request,
            questions.len(),
            0,
        ).wire() + questions_wire(questions),
        response_header(request, questions.len(), 0).an_count == 0,
{
    assert(answers_wire(Seq::empty()) =~= Seq::empty());
    assert(response_wire(request, questions, Seq::empty()) =~= response_header(
        request,
        questions.len(),
        0,
    ).wire() + questions_wire(questions));
}

/// Decodes the header and the questions of a request.
pub fn decode_request(
    datagram: &[u8],
) -> (request: Result<(DnsMessageHeader, Vec<DnsMessageQuestion>), Error>)
    ensures
        match request_of(datagram@) {
            Ok((header, questions)) => request matches Ok((found_header, found_questions))
                && found_header == header && questions_view(found_questions@) == questions,
            Err(error) => request == Err::<(DnsMessageHeader, Vec<DnsMessageQuestion>), Error>(
                error,
            ),
        },
{
    if datagram.len() < HEADER_LEN {
        return Err(Error::InvalidHeader);
    }
    let header = match DnsMessageHeader::try_from(&datagram[0..HEADER_LEN]) {
        Ok(header) => header,
        Err(error) => {
            return Err(error);
        },
    };
    match dns_questions_from_bytes(datagram, HEADER_LEN, header.qd_count) {
        Ok(questions) => Ok((header, questions)),
        Err(error) => Err(error),
    }
}

/// Makes the header of the response to `request`, for a response that echoes
/// `questions` questions and gives `answers` answers.
pub fn build_response_header(
    request: &DnsMessageHeader,
    questions: usize,
    answers: usize,
) -> (header: DnsMessageHeader)
    ensures
        header == response_header(*request, questions as nat, answers as nat),
{
    DnsMessageHeader {
        id: request.id,
        qr: true,
        op_code: request.op_code,
        aa: request.aa,
        tc: request.tc,
        rd: request.rd,
        ra: request.ra,
        z: request.z,
        rcode: if request.op_code == 0 {
            RCODE_NO_ERROR
        } else {
            RCODE_NOT_IMPLEMENTED
        },
        qd_count: (questions % 65536) as u16,
        an_count: (answers % 65536) as u16,
        ns_count: request.ns_count,
        ar_count: request.ar_count,
    }
}

/// Puts a message together from its encoded header and its two encoded
/// sections.
pub fn frame(header: &[u8; 12], questions: &[u8], answers: &[u8]) -> (message: Vec<u8>)
    requires
        12 + questions@.len() + answers@.len() <= isize::MAX,
    ensures
        message@ == header@ + questions@ + answers@,
{
    let mut buffer = buffer_with_capacity(12 + questions.len() + answers.len());
    put_slice(&mut buffer, header.as_slice());
    put_slice(&mut buffer, questions);
    put_slice(&mut buffer, answers);
    let bytes = freeze(buffer);
    frozen_to_vec(&bytes)
}

/// Whether a message with sections of these lengths is short enough to be
/// put together: no buffer holds more than `isize::MAX` bytes.
pub fn fits_frame(questions: usize, answers: usize) -> (fits: bool)
    ensures
        fits == (12 + questions + answers <= isize::MAX),
{
    let limit: usize = isize::MAX as usize;
    questions <= limit - 12 && answers <= limit - 12 - questions
}

/// Puts together the response to `request` that echoes `questions` and gives
/// `answers`.
///
/// Returns `None` where the response would be longer than a buffer can be.
pub fn assemble_response(
    request: &DnsMessageHeader,
    questions: &[DnsMessageQuestion],
    answers: &[DnsMessageResponse],
) -> (message: Option<Vec<u8>>)
    ensures
        match message {
            Some(bytes) => bytes@ == response_wire(
                *request,
                questions_view(questions@),
                answers_view(answers@),
            ),
            None => response_wire(
                *request,
                questions_view(questions@),
                answers_view(answers@),
            ).len() > isize::MAX,
        },
{
    let response_header = build_response_header(request, questions.len(), answers.len());
    let response_header_bytes: [u8; 12] = <[u8; 12]>::from(&response_header);
    let response_question_bytes: Vec<u8> = encode_questions(questions);
    let response_answer_bytes: Vec<u8> = encode_answers(answers);
    if !fits_frame(response_question_bytes.len(), response_answer_bytes.len()) {
        return None;
    }
    Some(
        frame(
            &response_header_bytes,
            response_question_bytes.as_slice(),
            response_answer_bytes.as_slice(),
        ),
    )
}

/// Puts together the response to a request after an attempt to resolve its
/// questions: with all the answers where that gave them, with every question
/// and no answer where it failed.
///
/// Returns `None` where the response would be longer than a buffer can be.
pub fn respond(
    request: &DnsMessageHeader,
    questions: &[DnsMessageQuestion],
    resolution: &Result<Vec<DnsMessageResponse>, Error>,
) -> (message: Option<Vec<u8>>)
    ensures
        match message {
            Some(bytes) => bytes@ == response_wire(
                *request,
                questions_view(questions@),
                answers_given(*resolution),
            ),
            None => response_wire(
                *request,
                questions_view(questions@),
                answers_given(*resolution),
            ).len() > isize::MAX,
        },
{
    match resolution {
        Ok(answers) => assemble_response(request, questions, answers.as_slice()),
        Err(_) => {
            let none: Vec<DnsMessageResponse> = Vec::new();
            assert(answers_view(none@) =~= Seq::empty());
            assemble_response(request, questions, none.as_slice())
        },
    }
}

/// Answers the questions of `request` without an upstream resolver.
pub fn answer_without_resolver(
    request: &DnsMessageHeader,
    questions: &[DnsMessageQuestion],
) -> (answers: Vec<DnsMessageResponse>)
    ensures
        answers_view(answers@) == answers_without_resolver(*request, questions_view(questions@)),
{
    if request.op_code == 0 {
        synthesize_answers(questions)
    } else {
        let none: Vec<DnsMessageResponse> = Vec::new();
        assert(answers_view(none@) =~= Seq::empty());
        none
    }
}

} // verus!
