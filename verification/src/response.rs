//! Replies to decoded queries.
//!
//! A reply echoes the identifier, the opcode and the recursion-desired flag
//! of the query, is marked as a response, and says "not implemented" to any
//! opcode but the standard query. In local mode every question is answered
//! with one fixed address. In forward mode each question is relayed on its
//! own to an upstream resolver, and the answers that come back are put
//! together in the order of the questions; sending and receiving is left to
//! the caller, who is told what to send and hands back what was received.

use crate::message::answer::{default_data, default_data_bytes, DEFAULT_TTL};
use crate::message::message::parse_message;
use crate::message::wire::copy_bytes;
use crate::message::{
    Answer, AnswerView, DecodeError, Header, Message, MessageView, Question, QuestionView,
};
use vstd::prelude::*;

verus! {

/// The response code for a query that is answered.
pub const RCODE_NO_ERROR: u8 = 0;

/// The response code for an opcode that is not served.
pub const RCODE_NOT_IMPLEMENTED: u8 = 4;

/// The most records that the header can count in one section.
pub const MAX_RECORDS: usize = 65535;

/// The response code for a query with the opcode `opcode`.
pub open spec fn response_rcode(opcode: u8) -> u8 {
    if opcode == 0 {
        RCODE_NO_ERROR
    } else {
        RCODE_NOT_IMPLEMENTED
    }
}

/// The header of the reply to a query with the header `query` that carries
/// `questions` questions and `answers` answers.
pub open spec fn response_header(query: Header, questions: nat, answers: nat) -> Header {
    Header {
        id: query.id,
        qr: true,
        opcode: query.opcode,
        aa: false,
        tc: false,
        rd: query.rd,
        ra: false,
        z: 0,
        rcode: response_rcode(query.opcode),
        qdcount: questions as u16,
        ancount: answers as u16,
        nscount: 0,
        arcount: 0,
    }
}

/// The fixed answer to the question `q`: its name, type and class, with the
/// address 8.8.8.8 to be kept for a minute.
pub open spec fn fixed_answer(q: QuestionView) -> AnswerView {
    AnswerView {
        name: q.name,
        qtype: q.qtype,
        qclass: q.qclass,
        ttl: DEFAULT_TTL,
        length: 4,
        data: default_data(),
    }
}

/// The reply to `request` in local mode: its questions, and for each the
/// fixed answer.
pub open spec fn local_response(request: MessageView) -> MessageView {
    MessageView {
        header: response_header(request.header, request.questions.len(), request.questions.len()),
        questions: request.questions,
        answers: Seq::new(request.questions.len(), |i: int| fixed_answer(request.questions[i])),
    }
}

/// Builds the header of a reply.
fn build_header(query: &Header, questions: u16, answers: u16) -> (h: Header)
    requires
        query.opcode <= 15,
    ensures
        h == response_header(*query, questions as nat, answers as nat),
        h.wf(),
{
    let rcode: u8 = if query.opcode == 0 {
        RCODE_NO_ERROR
    } else {
        RCODE_NOT_IMPLEMENTED
    };
    Header::builder()
        .qdcount(questions)
        .unwrap()
        .ancount(answers)
        .unwrap()
        .id(query.id)
        .unwrap()
        .opcode(query.opcode)
        .unwrap()
        .rd(query.rd)
        .unwrap()
        .rcode(rcode)
        .unwrap()
        .build()
}

/// A copy of the question `q`.
fn copy_question(q: &Question) -> (r: Question)
    ensures
        r@ == q@,
{
    Question::builder()
        .name_bytes(copy_bytes(&q.name))
        .unwrap()
        .qtype(q.qtype)
        .qclass(q.qclass)
        .build()
}

/// Builds the fixed answer to the question `q`.
fn build_fixed_answer(q: &Question) -> (a: Answer)
    ensures
        a@ == fixed_answer(q@),
        q@.wf() ==> a@.wf(),
{
    Answer::builder()
        .name_bytes(copy_bytes(&q.name))
        .unwrap()
        .qtype(q.qtype)
        .unwrap()
        .qclass(q.qclass)
        .unwrap()
        .ttl(DEFAULT_TTL)
        .unwrap()
        .length(4)
        .unwrap()
        .data(default_data_bytes())
        .unwrap()
        .build()
}

/// Builds the reply to `request` in local mode.
///
/// The reply is a response with the identifier, the opcode and the
/// recursion-desired flag of the request; its response code is 0 if the
/// opcode is 0, else 4; every other flag is clear. It holds the questions of
/// the request and, for each, an answer with the same name, type and class,
/// a time to live of 60 seconds and the address 8.8.8.8; the header counts
/// both.
pub fn build_response(request: Message) -> (response: Message)
    requires
        request.header.opcode <= 15,
        request.questions@.len() <= MAX_RECORDS,
    ensures
        response@ == local_response(request@),
        response.header.qr,
        response.header.id == request.header.id,
        response.header.rd == request.header.rd,
        response.header.opcode == request.header.opcode,
        response.header.rcode == 0 <==> request.header.opcode == 0,
        response.header.rcode == 4 <==> request.header.opcode != 0,
        response.header.qdcount == request.questions@.len(),
        response.header.ancount == request.questions@.len(),
        response.questions@.len() == request.questions@.len(),
        response.answers@.len() == request.questions@.len(),
        response.header.z == 0 && response.header.nscount == 0 && response.header.arcount == 0,
{
    let n: usize = request.questions.len();
    let mut questions: Vec<Question> = Vec::new();
    let mut answers: Vec<Answer> = Vec::new();
    let mut i: usize = 0;
    while i < n
        invariant
            i <= n,
            n == request.questions@.len(),
            questions@.len() == i,
            answers@.len() == i,
            forall|k: int| 0 <= k < i ==> (#[trigger] questions@[k])@ == request.questions@[k]@,
            forall|k: int|
                0 <= k < i ==> (#[trigger] answers@[k])@ == fixed_answer(request.questions@[k]@),
        decreases n - i,
    {
        let question: &Question = &request.questions[i];
        questions.push(copy_question(question));
        answers.push(build_fixed_answer(question));
        i = i + 1;
    }
    let header: Header = build_header(&request.header, n as u16, n as u16);
    let response = Message { header, questions, answers };
    proof {
        assert(response@.questions =~= request@.questions);
        assert(response@.answers =~= local_response(request@).answers);
    }
    response
}

/// Why a request that is being forwarded is given up.
#[derive(Clone, Copy, Debug, PartialEq, Eq)]
pub enum ForwardError {
    /// What the resolver sent is not a message.
    Decode(DecodeError),
    /// The resolver sent more answers in all than a header can count.
    TooManyAnswers,
}

/// How far the forwarding of one request has come: the header and the
/// questions of the request, how many questions the resolver has been asked,
/// and the answers so far.
pub struct ForwardState {
    header: Header,
    questions: Vec<Question>,
    done: usize,
    answers: Vec<Answer>,
}

/// The state of a forwarding as a mathematical value.
pub struct ForwardView {
    /// The header of the request.
    pub header: Header,
    /// The questions of the request.
    pub questions: Seq<QuestionView>,
    /// The number of questions for which the resolver has replied.
    pub done: nat,
    /// The answers to those questions, in the order of the questions.
    pub answers: Seq<AnswerView>,
}

impl View for ForwardState {
    type V = ForwardView;

    closed spec fn view(&self) -> ForwardView {
        ForwardView {
            header: self.header,
            questions: self.questions.deep_view(),
            done: self.done as nat,
            answers: self.answers.deep_view(),
        }
    }
}

impl ForwardState {
    /// The reply can be built: its header can hold the opcode and count the
    /// records.
    #[verifier::type_invariant]
    spec fn can_reply(self) -> bool {
        &&& self.header.opcode <= 15
        &&& self.done <= self.questions@.len() <= MAX_RECORDS
        &&& self.answers@.len() <= MAX_RECORDS
    }
}

/// What has happened since the last step.
pub enum ForwardEvent {
    /// Nothing yet: the forwarding begins.
    Start,
    /// The resolver has replied to the last relay with this datagram.
    Reply(Vec<u8>),
}

/// What is to be done next.
pub enum ForwardStep {
    /// Send `datagram` to the resolver and wait for its reply; then make the
    /// next step from `state` with that reply.
    Relay { state: ForwardState, datagram: Vec<u8> },
    /// Every question is through: send this reply to the client.
    Respond(Message),
    /// Drop the request; the client gets no reply.
    GiveUp(ForwardError),
}

/// The datagram that an event brings, if it brings one.
pub open spec fn event_reply(event: ForwardEvent) -> Option<Seq<u8>> {
    match event {
        ForwardEvent::Start => None,
        ForwardEvent::Reply(bytes) => Some(bytes@),
    }
}

/// The message that asks the resolver the next question of `s`: that
/// question behind the header of the request, which counts one question and
/// nothing else and has its reserved bits clear.
pub open spec fn relay_message(s: ForwardView) -> MessageView {
    MessageView {
        header: Header { z: 0, qdcount: 1, ancount: 0, nscount: 0, arcount: 0, ..s.header },
        questions: seq![s.questions[s.done as int]],
        answers: Seq::empty(),
    }
}

/// The answers that are taken from the resolver's reply to the question `q`:
/// those of the reply, or the fixed answer if it has none.
pub open spec fn relayed_answers(q: QuestionView, reply: MessageView) -> Seq<AnswerView> {
    if reply.answers.len() > 0 {
        reply.answers
    } else {
        seq![fixed_answer(q)]
    }
}

/// The reply to the client when every question is through: the questions of
/// the request and all the answers, counted by the header.
pub open spec fn forward_response(s: ForwardView) -> MessageView {
    MessageView {
        header: response_header(s.header, s.questions.len(), s.answers.len()),
        questions: s.questions,
        answers: s.answers,
    }
}

/// The state after an event. A reply while a question is open is decoded,
/// its answers are put behind those so far, and the question is through;
/// any other event leaves the state as it is.
pub open spec fn forward_next(s: ForwardView, reply: Option<Seq<u8>>) -> Result<
    ForwardView,
    ForwardError,
> {
    match reply {
        Some(bytes) if s.done < s.questions.len() => match parse_message(bytes) {
            Err(e) => Err(ForwardError::Decode(e)),
            Ok(m) => {
                let got = relayed_answers(s.questions[s.done as int], m);
                if s.answers.len() + got.len() > MAX_RECORDS {
                    Err(ForwardError::TooManyAnswers)
                } else {
                    Ok(ForwardView { done: s.done + 1, answers: s.answers + got, ..s })
                }
            },
        },
        _ => Ok(s),
    }
}

/// Begins to forward `request`: no question has been asked yet.
pub fn begin_forward(request: Message) -> (state: ForwardState)
    requires
        request.header.opcode <= 15,
        request.questions@.len() <= MAX_RECORDS,
    ensures
        state@ == (ForwardView {
            header: request.header,
            questions: request@.questions,
            done: 0,
            answers: Seq::empty(),
        }),
{
    let state = ForwardState {
        header: request.header,
        questions: request.questions,
        done: 0,
        answers: Vec::new(),
    };
    assert(state@.answers =~= Seq::<AnswerView>::empty());
    state
}

/// Makes the next step of a forwarding.
///
/// A reply to the open question is decoded first. If it is no message, or
/// brings more answers than can be counted, the request is given up. Its
/// answers, or the fixed answer if it has none, go behind the answers so
/// far. Then, if a question is left, the step is to relay it; else it is to
/// send the reply, whose header is that of a local reply but counts the
/// answers that were collected.
pub fn forward_step(state: ForwardState, event: ForwardEvent) -> (step: ForwardStep)
    ensures
        match forward_next(state@, event_reply(event)) {
            Err(e) => step matches ForwardStep::GiveUp(err) && err == e,
            Ok(next) => if next.done < next.questions.len() {
                step matches ForwardStep::Relay { state: s, datagram } && s@ == next && datagram@
                    == relay_message(next).wire()
            } else {
                step matches ForwardStep::Respond(m) && m@ == forward_response(next)
            },
        },
{
    proof {
        use_type_invariant(&state);
    }
    let ghost before = state@;
    let header: Header = state.header;
    let questions: Vec<Question> = state.questions;
    let mut answers: Vec<Answer> = state.answers;
    let mut done: usize = state.done;
    match event {
        ForwardEvent::Start => {},
        ForwardEvent::Reply(bytes) => {
            if done < questions.len() {
                match Message::decode(bytes.as_slice()) {
                    Err(e) => {
                        return ForwardStep::GiveUp(ForwardError::Decode(e));
                    },
                    Ok(reply) => {
                        let ghost reply_view = reply@;
                        let mut got: Vec<Answer> = reply.answers;
                        if got.len() == 0 {
                            got.push(build_fixed_answer(&questions[done]));
                        }
                        proof {
                            assert(got.deep_view() =~= relayed_answers(
                                before.questions[done as int],
                                reply_view,
                            ));
                        }
                        if got.len() > MAX_RECORDS - answers.len() {
                            return ForwardStep::GiveUp(ForwardError::TooManyAnswers);
                        }
                        let ghost so_far = answers.deep_view();
                        let ghost more = got.deep_view();
                        answers.append(&mut got);
                        assert(answers.deep_view() =~= so_far + more);
                        done = done + 1;
                    },
                }
            }
        },
    }
    if done < questions.len() {
        let mut one: Vec<Question> = Vec::new();
        one.push(copy_question(&questions[done]));
        let relay = Message {
            header: Header { z: 0, qdcount: 1, ancount: 0, nscount: 0, arcount: 0, ..header },
            questions: one,
            answers: Vec::new(),
        };
        let next = ForwardState { header, questions, done, answers };
        proof {
            assert(relay@.questions =~= relay_message(next@).questions);
            assert(relay@.answers =~= relay_message(next@).answers);
        }
        let datagram: Vec<u8> = relay.encode();
        ForwardStep::Relay { state: next, datagram }
    } else {
        let response = Message {
            header: build_header(&header, questions.len() as u16, answers.len() as u16),
            questions,
            answers,
        };
        ForwardStep::Respond(response)
    }
}

} // verus!
