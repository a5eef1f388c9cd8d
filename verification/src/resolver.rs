//! Forwarding the questions of a request to an upstream resolver, one at a
//! time.
//!
//! The resolver is a state machine. The caller owns the socket: it asks for
//! the next query, sends it, and reports the reply or the failure to send or
//! receive. The machine decides what is sent, what a reply is worth, and when
//! the request is settled. A request is resolved as a whole or not at all: the
//! first failure ends it, and what was gathered until then is not given out.

use crate::answer::{answer_at, answers_view, dns_response_from_bytes, Answer, DnsMessageResponse};
use crate::error::Error;
use crate::header::DnsMessageHeader;
use crate::message::frame;
use crate::question::{questions_view, DnsMessageQuestion, Question};
use vstd::prelude::*;

verus! {

/// The header of the query that is sent upstream for one question of
/// `request`: the request's header with a question count of one.
pub open spec fn upstream_header(request: DnsMessageHeader) -> DnsMessageHeader {
    DnsMessageHeader { qd_count: 1, ..request }
}

/// The query that is sent upstream for `question` of `request`: the upstream
/// header, then the encoded question.
pub open spec fn upstream_query(request: DnsMessageHeader, question: Question) -> Seq<u8> {
    upstream_header(request).wire() + question.wire()
}

/// The answer that an upstream reply gives to `question`: the record that
/// stands behind the reply's header and its copy of the question, which is
/// taken to be as long as the question that was sent. `None` where the reply
/// is shorter than that, or has no record there.
pub open spec fn upstream_answer(reply: Seq<u8>, question: Question) -> Option<Answer> {
    let skip = 12 + question.wire().len() as int;
    if reply.len() < skip {
        None
    } else {
        answer_at(reply.skip(skip))
    }
}

/// The query for `question` is short enough to be put together.
pub open spec fn can_forward(question: Question) -> bool {
    12 + question.wire().len() <= isize::MAX
}

/// Makes the query that is sent upstream for `question` of `request`.
pub fn build_upstream_query(
    request: &DnsMessageHeader,
    question: &DnsMessageQuestion,
) -> (query: Vec<u8>)
    requires
        can_forward(question@),
    ensures
        query@ == upstream_query(*request, question@),
{
    let resolver_req_header = DnsMessageHeader {
        id: request.id,
        qr: request.qr,
        op_code: request.op_code,
        aa: request.aa,
        tc: request.tc,
        rd: request.rd,
        ra: request.ra,
        z: request.z,
        rcode: request.rcode,
        qd_count: 1,
        an_count: request.an_count,
        ns_count: request.ns_count,
        ar_count: request.ar_count,
    };
    let resolver_req_header_bytes: [u8; 12] = <[u8; 12]>::from(&resolver_req_header);
    let resolver_question_bytes: Vec<u8> = Vec::from(question);
    let nothing: Vec<u8> = Vec::new();
    let query = frame(
        &resolver_req_header_bytes,
        resolver_question_bytes.as_slice(),
        nothing.as_slice(),
    );
    assert(query@ =~= upstream_query(*request, question@));
    query
}

/// Decodes the answer that the upstream `reply` gives to `question`.
///
/// Fails with `InvalidResponse` where the reply holds none.
pub fn parse_upstream_reply(
    reply: &[u8],
    question: &DnsMessageQuestion,
) -> (answer: Result<DnsMessageResponse, Error>)
    ensures
        match upstream_answer(reply@, question@) {
            Some(found) => answer matches Ok(record) && record@ == found && found.well_formed(),
            None => answer == Err::<DnsMessageResponse, Error>(Error::InvalidResponse),
        },
{
    if reply.len() < 16 || reply.len() - 16 < question.name.len() {
        return Err(Error::InvalidResponse);
    }
    let skip: usize = 16 + question.name.len();
    assert(reply@.subrange(skip as int, reply@.len() as int) =~= reply@.skip(skip as int));
    dns_response_from_bytes(&reply[skip..reply.len()])
}

/// The state of resolving the questions of one request upstream.
pub struct Resolver<'a> {
    request: DnsMessageHeader,
    questions: &'a [DnsMessageQuestion],
    answers: Vec<DnsMessageResponse>,
    failure: Option<Error>,
}

impl<'a> Resolver<'a> {
    /// The header of the request that is being resolved.
    pub closed spec fn request(&self) -> DnsMessageHeader {
        self.request
    }

    /// The questions that are being resolved, in order.
    pub closed spec fn questions(&self) -> Seq<Question> {
        questions_view(self.questions@)
    }

    /// The answers gathered so far: those to the first questions, in order.
    pub closed spec fn answers(&self) -> Seq<Answer> {
        answers_view(self.answers@)
    }

    /// The failure that ended the resolution, if one did.
    pub closed spec fn failure(&self) -> Option<Error> {
        self.failure
    }

    /// No more answers are gathered than there are questions, every answer
    /// declares the length of its payload, and every question can be sent.
    pub closed spec fn well_formed(&self) -> bool {
        &&& self.answers@.len() <= self.questions@.len()
        &&& forall|i: int|
            0 <= i < self.answers@.len() ==> (#[trigger] self.answers@[i])@.well_formed()
        &&& forall|i: int|
            0 <= i < self.questions@.len() ==> can_forward((#[trigger] self.questions@[i])@)
    }

    /// A question is still unanswered and nothing has failed: a query is to be
    /// sent, or its reply is awaited.
    pub open spec fn pending(&self) -> bool {
        self.failure() is None && self.answers().len() < self.questions().len()
    }

    /// The question that is asked next.
    pub open spec fn current(&self) -> Question
        recommends
            self.pending(),
    {
        self.questions()[self.answers().len() as int]
    }

    /// Starts resolving `questions` of `request`, with nothing sent yet.
    ///
    /// Returns `None` where one of the questions is too long to be sent.
    pub fn new(
        request: &DnsMessageHeader,
        questions: &'a [DnsMessageQuestion],
    ) -> (resolver: Option<Resolver<'a>>)
        ensures
            match resolver {
                Some(machine) => {
                    &&& machine.well_formed()
                    &&& machine.request() == *request
                    &&& machine.questions() == questions_view(questions@)
                    &&& machine.answers() == Seq::<Answer>::empty()
                    &&& machine.failure() is None
                    &&& forall|i: int|
                        0 <= i < questions@.len() ==> can_forward(
                            #[trigger] questions_view(questions@)[i],
                        )
                },
                None => exists|i: int|
                    0 <= i < questions@.len() && !can_forward(
                        #[trigger] questions_view(questions@)[i],
                    ),
            },
    {
        let limit: usize = isize::MAX as usize - 16;
        let mut checked: usize = 0;
        while checked < questions.len()
            invariant
                checked <= questions@.len(),
                limit == isize::MAX - 16,
                forall|i: int| 0 <= i < checked ==> can_forward((#[trigger] questions@[i])@),
            decreases questions@.len() - checked,
        {
            if questions[checked].name.len() > limit {
                assert(!can_forward(questions_view(questions@)[checked as int]));
                return None;
            }
            checked = checked + 1;
        }
        let answers: Vec<DnsMessageResponse> = Vec::new();
        assert(answers_view(answers@) =~= Seq::<Answer>::empty());
        Some(Resolver { request: *request, questions, answers, failure: None })
    }

    /// The query to send now: the one for the first unanswered question, as
    /// long as nothing has failed. `None` once the request is settled.
    pub fn next_query(&self) -> (query: Option<Vec<u8>>)
        requires
            self.well_formed(),
        ensures
            match query {
                Some(bytes) => self.pending() && bytes@ == upstream_query(
                    self.request(),
                    self.current(),
                ),
                None => !self.pending(),
            },
    {
        if self.failure.is_some() || self.answers.len() >= self.questions.len() {
            return None;
        }
        Some(build_upstream_query(&self.request, &self.questions[self.answers.len()]))
    }

    /// Takes the upstream reply to the query that was sent last. Where the
    /// reply holds an answer to the current question, the answer is kept and
    /// the next question is due. Where it holds none, the resolution has
    /// failed with `InvalidResponse`. A reply that comes when no question is
    /// pending changes nothing.
    pub fn on_reply(&mut self, reply: &[u8])
        requires
            old(self).well_formed(),
        ensures
            final(self).well_formed(),
            final(self).request() == old(self).request(),
            final(self).questions() == old(self).questions(),
            !old(self).pending() ==> {
                &&& final(self).answers() == old(self).answers()
                &&& final(self).failure() == old(self).failure()
            },
            old(self).pending() ==> match upstream_answer(reply@, old(self).current()) {
                Some(answer) => final(self).answers() == old(self).answers().push(answer)
                    && final(self).failure() is None,
                None => final(self).answers() == old(self).answers() && final(self).failure()
                    == Some(Error::InvalidResponse),
            },
    {
        if self.failure.is_some() || self.answers.len() >= self.questions.len() {
            return ;
        }
        let ghost before = self.answers@;
        match parse_upstream_reply(reply, &self.questions[self.answers.len()]) {
            Ok(answer) => {
                self.answers.push(answer);
                assert(answers_view(self.answers@) =~= answers_view(before).push(answer@));
            },
            Err(error) => {
                self.failure = Some(error);
            },
        }
    }

    /// Takes the failure to send the last query or to receive its reply: the
    /// resolution has failed with it. A failure reported when no question is
    /// pending changes nothing.
    pub fn on_transport_error(&mut self, error: std::io::Error)
        requires
            old(self).well_formed(),
        ensures
            final(self).well_formed(),
            final(self).request() == old(self).request(),
            final(self).questions() == old(self).questions(),
            final(self).answers() == old(self).answers(),
            final(self).failure() == if old(self).pending() {
                Some(Error::Io(error))
            } else {
                old(self).failure()
            },
    {
        if self.failure.is_some() || self.answers.len() >= self.questions.len() {
            return ;
        }
        self.failure = Some(Error::Io(error));
    }

    /// Ends the resolution. It gives the answers, one for each question in
    /// the order of the questions, only where every question was answered.
    /// Where the resolution failed it gives the failure, and where it is given
    /// up with a question still pending it gives `InvalidResponse`; what was
    /// gathered until then is dropped.
    pub fn finish(self) -> (outcome: Result<Vec<DnsMessageResponse>, Error>)
        requires
            self.well_formed(),
        ensures
            match outcome {
                Ok(answers) => {
                    &&& self.failure() is None
                    &&& answers_view(answers@) == self.answers()
                    &&& answers@.len() == self.questions().len()
                    &&& forall|i: int|
                        0 <= i < answers@.len() ==> (#[trigger] answers@[i])@.well_formed()
                },
                Err(error) => match self.failure() {
                    Some(failure) => error == failure,
                    None => self.pending() && error == Error::InvalidResponse,
                },
            },
    {
        match self.failure {
            Some(error) => Err(error),
            None => {
                if self.answers.len() < self.questions.len() {
                    Err(Error::InvalidResponse)
                } else {
                    Ok(self.answers)
                }
            },
        }
    }
}

} // verus!
