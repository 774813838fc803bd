//! Whole messages: a header, the questions and the answers.
//!
//! On the wire the header comes first, then the questions in order, then the
//! answers in order. A message that is written never passes 512 octets: one
//! that would is cut behind the last record that fits, with the truncation
//! flag set and the counts of its header brought down to what is left.

use super::answer::{
    answer_wire, answers_plain, answers_wire, lemma_answers_roundtrip, lemma_answers_wire_front,
    lemma_parse_answers_valid, lemma_plain_answers_wire, parse_answers, Answer, AnswerView,
};
use super::error::DecodeError;
use super::header::{
    header_wire, lemma_header_roundtrip, lemma_header_wire_roundtrip, lemma_parse_header_wf,
    parse_header, Header, HEADER_LEN,
};
use super::question::{
    lemma_parse_questions_valid, lemma_plain_questions_wire, lemma_questions_roundtrip,
    lemma_questions_wire_front, parse_questions, question_wire, questions_plain, questions_wire,
    Question, QuestionView,
};
use vstd::prelude::*;

verus! {

/// The most octets that a message has on the wire.
pub const MAX_MESSAGE_LEN: usize = 512;

/// A message: the header and the records of its question and answer
/// sections.
#[derive(Debug, Clone, PartialEq, Eq)]
pub struct Message {
    pub header: Header,
    pub questions: Vec<Question>,
    pub answers: Vec<Answer>,
}

/// A message as a mathematical value.
pub struct MessageView {
    pub header: Header,
    pub questions: Seq<QuestionView>,
    pub answers: Seq<AnswerView>,
}

impl View for Message {
    type V = MessageView;

    open spec fn view(&self) -> MessageView {
        MessageView {
            header: self.header,
            questions: self.questions.deep_view(),
            answers: self.answers.deep_view(),
        }
    }
}

impl MessageView {
    /// The header fits its bits and counts the records that are there, and
    /// each record is in order.
    pub open spec fn wf(self) -> bool {
        &&& self.header.wf()
        &&& self.header.qdcount == self.questions.len()
        &&& self.header.ancount == self.answers.len()
        &&& forall|i: int| 0 <= i < self.questions.len() ==> (#[trigger] self.questions[i]).wf()
        &&& forall|i: int| 0 <= i < self.answers.len() ==> (#[trigger] self.answers[i]).wf()
    }

    /// The message with all its records on the wire, whatever its length.
    pub open spec fn full_wire(self) -> Seq<u8> {
        header_wire(self.header) + questions_wire(self.questions) + answers_wire(self.answers)
    }

    /// The number of questions that are written: as many from the first on
    /// as fit behind the header.
    pub open spec fn kept_questions(self) -> nat {
        questions_fitting(self.questions, MAX_MESSAGE_LEN - HEADER_LEN)
    }

    /// The number of answers that are written: none unless every question is
    /// written, and then as many from the first on as fit behind the
    /// questions.
    pub open spec fn kept_answers(self) -> nat {
        if self.kept_questions() < self.questions.len() {
            0
        } else {
            answers_fitting(
                self.answers,
                MAX_MESSAGE_LEN - HEADER_LEN - questions_wire(self.questions).len(),
            )
        }
    }

    /// Every record is written.
    pub open spec fn fits(self) -> bool {
        self.kept_questions() == self.questions.len() && self.kept_answers() == self.answers.len()
    }

    /// The message that is left when the records that do not fit are cut off:
    /// the truncation flag is set and the header counts what is left.
    pub open spec fn truncated(self) -> MessageView {
        MessageView {
            header: Header {
                tc: true,
                qdcount: self.kept_questions() as u16,
                ancount: self.kept_answers() as u16,
                ..self.header
            },
            questions: self.questions.take(self.kept_questions() as int),
            answers: self.answers.take(self.kept_answers() as int),
        }
    }

    /// The octets of the message on the wire: all of it if it fits in 512
    /// octets, else what is left of it when it is cut at a record boundary.
    pub open spec fn wire(self) -> Seq<u8> {
        if self.fits() {
            self.full_wire()
        } else {
            self.truncated().full_wire()
        }
    }
}

/// The number of questions of `qs`, from the first on, whose wire forms take
/// no more than `room` octets together.
pub open spec fn questions_fitting(qs: Seq<QuestionView>, room: int) -> nat
    decreases qs.len(),
{
    if qs.len() == 0 || question_wire(qs[0]).len() > room {
        0
    } else {
        1 + questions_fitting(qs.drop_first(), room - question_wire(qs[0]).len())
    }
}

/// The number of answers of `answers`, from the first on, whose wire forms
/// take no more than `room` octets together.
pub open spec fn answers_fitting(answers: Seq<AnswerView>, room: int) -> nat
    decreases answers.len(),
{
    if answers.len() == 0 || answer_wire(answers[0]).len() > room {
        0
    } else {
        1 + answers_fitting(answers.drop_first(), room - answer_wire(answers[0]).len())
    }
}

/// The offset behind the last answer of the message in `buf`, where it can be
/// decoded.
pub open spec fn message_end(buf: Seq<u8>) -> int {
    let h = parse_header(buf)->Ok_0;
    let p = parse_questions(buf, HEADER_LEN as int, h.qdcount as nat)->Ok_0.1;
    parse_answers(buf, p, h.ancount as nat)->Ok_0.1
}

/// No name of the message in `buf` is written with a compression pointer.
pub open spec fn message_is_plain(buf: Seq<u8>) -> bool {
    let h = parse_header(buf)->Ok_0;
    let p = parse_questions(buf, HEADER_LEN as int, h.qdcount as nat)->Ok_0.1;
    questions_plain(buf, HEADER_LEN as int, h.qdcount as nat) && answers_plain(
        buf,
        p,
        h.ancount as nat,
    )
}

/// The message that `buf` holds: the header, then as many questions as the
/// header counts, then as many answers as it counts. What follows the last
/// answer is not looked at.
pub open spec fn parse_message(buf: Seq<u8>) -> Result<MessageView, DecodeError> {
    match parse_header(buf) {
        Err(e) => Err(e),
        Ok(h) => match parse_questions(buf, HEADER_LEN as int, h.qdcount as nat) {
            Err(e) => Err(e),
            Ok((questions, p)) => match parse_answers(buf, p, h.ancount as nat) {
                Err(e) => Err(e),
                Ok((answers, _)) => Ok(MessageView { header: h, questions, answers }),
            },
        },
    }
}

/// Counts the questions that fit in `room` octets, from the first on. Returns
/// their number and the octets that they take.
fn questions_that_fit(questions: &Vec<Question>, room: usize) -> (r: (usize, usize))
    ensures
        r.0 == questions_fitting(questions.deep_view(), room as int),
        r.0 <= questions@.len(),
        r.1 == questions_wire(questions.deep_view().take(r.0 as int)).len(),
        5 * r.0 <= r.1 <= room,
{
    let ghost qs = questions.deep_view();
    let mut count: usize = 0;
    let mut used: usize = 0;
    assert(qs.skip(0) =~= qs);
    assert(qs.take(0) =~= Seq::<QuestionView>::empty());
    while count < questions.len()
        invariant_except_break
            qs == questions.deep_view(),
            count <= questions@.len(),
            5 * count <= used <= room,
            used == questions_wire(qs.take(count as int)).len(),
            questions_fitting(qs, room as int) == count + questions_fitting(
                qs.skip(count as int),
                room - used,
            ),
        ensures
            count <= questions@.len(),
            5 * count <= used <= room,
            used == questions_wire(qs.take(count as int)).len(),
            questions_fitting(qs, room as int) == count,
        decreases questions@.len() - count,
    {
        let left: usize = room - used;
        let name_len: usize = questions[count].name.len();
        proof {
            let rest = qs.skip(count as int);
            assert(rest[0] == questions@[count as int]@);
            assert(rest.drop_first() =~= qs.skip(count + 1));
            let next = qs.take(count + 1);
            assert(next.drop_last() =~= qs.take(count as int));
            assert(next.last() == rest[0]);
        }
        if name_len > left || left - name_len < 5 {
            break ;
        }
        used = used + name_len + 5;
        count = count + 1;
    }
    (count, used)
}

/// Counts the answers that fit in `room` octets, from the first on. Returns
/// their number and the octets that they take.
fn answers_that_fit(answers: &Vec<Answer>, room: usize) -> (r: (usize, usize))
    ensures
        r.0 == answers_fitting(answers.deep_view(), room as int),
        r.0 <= answers@.len(),
        r.1 == answers_wire(answers.deep_view().take(r.0 as int)).len(),
        11 * r.0 <= r.1 <= room,
{
    let ghost all = answers.deep_view();
    let mut count: usize = 0;
    let mut used: usize = 0;
    assert(all.skip(0) =~= all);
    assert(all.take(0) =~= Seq::<AnswerView>::empty());
    while count < answers.len()
        invariant_except_break
            all == answers.deep_view(),
            count <= answers@.len(),
            11 * count <= used <= room,
            used == answers_wire(all.take(count as int)).len(),
            answers_fitting(all, room as int) == count + answers_fitting(
                all.skip(count as int),
                room - used,
            ),
        ensures
            count <= answers@.len(),
            11 * count <= used <= room,
            used == answers_wire(all.take(count as int)).len(),
            answers_fitting(all, room as int) == count,
        decreases answers@.len() - count,
    {
        let left: usize = room - used;
        let name_len: usize = answers[count].name.len();
        let data_len: usize = answers[count].data.len();
        proof {
            let rest = all.skip(count as int);
            assert(rest[0] == answers@[count as int]@);
            assert(rest.drop_first() =~= all.skip(count + 1));
            let next = all.take(count + 1);
            assert(next.drop_last() =~= all.take(count as int));
            assert(next.last() == rest[0]);
        }
        if name_len > left || left - name_len < 11 || left - name_len - 11 < data_len {
            break ;
        }
        used = used + name_len + 11 + data_len;
        count = count + 1;
    }
    (count, used)
}

/// Appends the wire forms of the first `count` questions to `out`.
fn write_questions(out: &mut Vec<u8>, questions: &Vec<Question>, count: usize)
    requires
        count <= questions@.len(),
    ensures
        final(out)@ == old(out)@ + questions_wire(questions.deep_view().take(count as int)),
{
    let ghost qs = questions.deep_view().take(count as int);
    let mut i: usize = 0;
    assert(qs.take(0) =~= Seq::<QuestionView>::empty());
    assert(out@ =~= old(out)@ + questions_wire(qs.take(0)));
    while i < count
        invariant
            i <= count <= questions@.len(),
            qs == questions.deep_view().take(count as int),
            out@ == old(out)@ + questions_wire(qs.take(i as int)),
        decreases count - i,
    {
        questions[i].encode_to(out);
        proof {
            let next = qs.take(i + 1);
            assert(next.drop_last() =~= qs.take(i as int));
            assert(next.last() == questions@[i as int]@);
            assert(out@ =~= old(out)@ + questions_wire(next));
        }
        i = i + 1;
    }
    assert(qs.take(count as int) =~= qs);
}

/// Appends the wire forms of the first `count` answers to `out`.
fn write_answers(out: &mut Vec<u8>, answers: &Vec<Answer>, count: usize)
    requires
        count <= answers@.len(),
    ensures
        final(out)@ == old(out)@ + answers_wire(answers.deep_view().take(count as int)),
{
    let ghost kept = answers.deep_view().take(count as int);
    let mut i: usize = 0;
    assert(kept.take(0) =~= Seq::<AnswerView>::empty());
    assert(out@ =~= old(out)@ + answers_wire(kept.take(0)));
    while i < count
        invariant
            i <= count <= answers@.len(),
            kept == answers.deep_view().take(count as int),
            out@ == old(out)@ + answers_wire(kept.take(i as int)),
        decreases count - i,
    {
        answers[i].encode_to(out);
        proof {
            let next = kept.take(i + 1);
            assert(next.drop_last() =~= kept.take(i as int));
            assert(next.last() == answers@[i as int]@);
            assert(out@ =~= old(out)@ + answers_wire(next));
        }
        i = i + 1;
    }
    assert(kept.take(count as int) =~= kept);
}

impl Message {
    /// The octets of the message on the wire, at most 512.
    ///
    /// The header, the questions in order and the answers in order. If that
    /// would pass 512 octets, the records from the first that does not fit
    /// on are left out, the truncation flag is set, and the header counts
    /// the records that are written.
    pub fn encode(self) -> (bytes: Vec<u8>)
        ensures
            bytes@ == self@.wire(),
            bytes@.len() <= MAX_MESSAGE_LEN,
    {
        let ghost m = self@;
        let room: usize = MAX_MESSAGE_LEN - HEADER_LEN;
        let (kept_questions, used) = questions_that_fit(&self.questions, room);
        let whole_questions: bool = kept_questions == self.questions.len();
        let kept_answers: usize = if whole_questions {
            assert(m.questions.take(kept_questions as int) =~= m.questions);
            answers_that_fit(&self.answers, room - used).0
        } else {
            0
        };
        let whole: bool = whole_questions && kept_answers == self.answers.len();
        let header: Header = if whole {
            self.header
        } else {
            Header {
                tc: true,
                qdcount: kept_questions as u16,
                ancount: kept_answers as u16,
                ..self.header
            }
        };
        proof {
            assert(m.kept_questions() == kept_questions);
            assert(m.kept_answers() == kept_answers);
            assert(whole == m.fits());
            if whole {
                assert(m.questions.take(kept_questions as int) =~= m.questions);
                assert(m.answers.take(kept_answers as int) =~= m.answers);
            }
            lemma_wire_bounded(m);
        }
        let mut bytes: Vec<u8> = header.encode();
        write_questions(&mut bytes, &self.questions, kept_questions);
        write_answers(&mut bytes, &self.answers, kept_answers);
        bytes
    }

    /// Reads a message from the octets of a datagram.
    ///
    /// The header, then as many questions as it counts, then as many answers
    /// as it counts; names may use compression pointers. What follows the
    /// last answer is not looked at. Fails with the error of the first part
    /// that cannot be read.
    pub fn decode(bytes: &[u8]) -> (r: Result<Message, DecodeError>)
        ensures
            match r {
                Ok(m) => parse_message(bytes@) == Ok::<MessageView, DecodeError>(m@) && m@.wf(),
                Err(e) => parse_message(bytes@) == Err::<MessageView, DecodeError>(e),
            },
    {
        let header: Header = match Header::decode(bytes) {
            Err(e) => {
                return Err(e);
            },
            Ok(h) => h,
        };
        let (questions, question_len) = match Question::decode(
            bytes,
            header.qdcount as usize,
            HEADER_LEN,
        ) {
            Err(e) => {
                return Err(e);
            },
            Ok(r) => r,
        };
        assert(bytes@.len() == bytes.len());
        let offset: usize = HEADER_LEN + question_len;
        let answers: Vec<Answer> = match Answer::decode(bytes, header.ancount as usize, offset) {
            Err(e) => {
                return Err(e);
            },
            Ok(a) => a,
        };
        Ok(Message { header, questions, answers })
    }
}

/// A run of questions takes at least five octets for each.
pub proof fn lemma_questions_wire_len(qs: Seq<QuestionView>)
    ensures
        questions_wire(qs).len() >= 5 * qs.len(),
    decreases qs.len(),
{
    if qs.len() > 0 {
        lemma_questions_wire_len(qs.drop_last());
    }
}

/// A run of answers takes at least eleven octets for each.
pub proof fn lemma_answers_wire_len(answers: Seq<AnswerView>)
    ensures
        answers_wire(answers).len() >= 11 * answers.len(),
    decreases answers.len(),
{
    if answers.len() > 0 {
        lemma_answers_wire_len(answers.drop_last());
    }
}

/// The questions that fit are a run from the first on that takes no more than
/// the room there is, and all of them if all take no more. Those that fit
/// still fit when the others are left out.
pub proof fn lemma_questions_fitting(qs: Seq<QuestionView>, room: int)
    requires
        room >= 0,
    ensures
        questions_fitting(qs, room) <= qs.len(),
        questions_wire(qs.take(questions_fitting(qs, room) as int)).len() <= room,
        questions_fitting(qs, room) == qs.len() <==> questions_wire(qs).len() <= room,
        questions_fitting(qs.take(questions_fitting(qs, room) as int), room) == questions_fitting(
            qs,
            room,
        ),
    decreases qs.len(),
{
    let k = questions_fitting(qs, room);
    if qs.len() == 0 {
        assert(qs.take(0) =~= qs);
    } else if question_wire(qs[0]).len() > room {
        assert(qs.take(0) =~= Seq::<QuestionView>::empty());
        lemma_questions_wire_front(qs);
    } else {
        let first = question_wire(qs[0]).len();
        let rest = qs.drop_first();
        lemma_questions_fitting(rest, room - first);
        lemma_questions_wire_front(qs);
        let kept = qs.take(k as int);
        lemma_questions_wire_front(kept);
        assert(kept.drop_first() =~= rest.take(k - 1));
    }
}

/// The answers that fit are a run from the first on that takes no more than
/// the room there is, and all of them if all take no more. Those that fit
/// still fit when the others are left out.
pub proof fn lemma_answers_fitting(answers: Seq<AnswerView>, room: int)
    requires
        room >= 0,
    ensures
        answers_fitting(answers, room) <= answers.len(),
        answers_wire(answers.take(answers_fitting(answers, room) as int)).len() <= room,
        answers_fitting(answers, room) == answers.len() <==> answers_wire(answers).len() <= room,
        answers_fitting(answers.take(answers_fitting(answers, room) as int), room)
            == answers_fitting(answers, room),
    decreases answers.len(),
{
    let k = answers_fitting(answers, room);
    if answers.len() == 0 {
        assert(answers.take(0) =~= answers);
    } else if answer_wire(answers[0]).len() > room {
        assert(answers.take(0) =~= Seq::<AnswerView>::empty());
        lemma_answers_wire_front(answers);
    } else {
        let first = answer_wire(answers[0]).len();
        let rest = answers.drop_first();
        lemma_answers_fitting(rest, room - first);
        lemma_answers_wire_front(answers);
        let kept = answers.take(k as int);
        lemma_answers_wire_front(kept);
        assert(kept.drop_first() =~= rest.take(k - 1));
    }
}

/// Every record of a message is written exactly when the message with all
/// its records takes no more than 512 octets.
pub proof fn lemma_fits_iff_short(m: MessageView)
    ensures
        m.fits() <==> m.full_wire().len() <= MAX_MESSAGE_LEN,
{
    let room = MAX_MESSAGE_LEN - HEADER_LEN;
    lemma_questions_fitting(m.questions, room);
    let left = room - questions_wire(m.questions).len();
    if left >= 0 {
        lemma_answers_fitting(m.answers, left);
    }
}

/// What is written of a message takes no more than 512 octets.
pub proof fn lemma_wire_bounded(m: MessageView)
    ensures
        m.wire().len() <= MAX_MESSAGE_LEN,
{
    lemma_fits_iff_short(m);
    if !m.fits() {
        let room = MAX_MESSAGE_LEN - HEADER_LEN;
        lemma_questions_fitting(m.questions, room);
        if m.kept_questions() < m.questions.len() {
            assert(m.answers.take(0) =~= Seq::<AnswerView>::empty());
        } else {
            assert(m.questions.take(m.kept_questions() as int) =~= m.questions);
            lemma_answers_fitting(m.answers, room - questions_wire(m.questions).len());
        }
    }
}

/// What is left of a message whose header and records are in order, when
/// the records that do not fit are cut off, is a message in order that is
/// written whole.
pub proof fn lemma_truncated_wf(m: MessageView)
    requires
        m.header.wf(),
        forall|i: int| 0 <= i < m.questions.len() ==> (#[trigger] m.questions[i]).wf(),
        forall|i: int| 0 <= i < m.answers.len() ==> (#[trigger] m.answers[i]).wf(),
    ensures
        m.truncated().wf(),
        m.truncated().fits(),
{
    let t = m.truncated();
    let room = MAX_MESSAGE_LEN - HEADER_LEN;
    lemma_questions_fitting(m.questions, room);
    lemma_questions_wire_len(t.questions);
    if m.kept_questions() < m.questions.len() {
        assert(t.answers =~= Seq::<AnswerView>::empty());
    } else {
        assert(t.questions =~= m.questions);
        lemma_answers_fitting(m.answers, room - questions_wire(m.questions).len());
        lemma_answers_wire_len(t.answers);
    }
}

/// A message in order that takes no more than 512 octets is decoded from
/// its wire form as it was. The wire form holds no compression pointer, and
/// nothing behind the last answer.
pub proof fn lemma_message_roundtrip(m: MessageView)
    requires
        m.wf(),
        m.fits(),
    ensures
        parse_message(m.wire()) == Ok::<MessageView, DecodeError>(m),
        message_is_plain(m.wire()),
        message_end(m.wire()) == m.wire().len(),
{
    let head = header_wire(m.header);
    let qw = questions_wire(m.questions);
    let aw = answers_wire(m.answers);
    let buf = m.wire();
    assert(buf =~= head + (qw + aw));
    lemma_header_roundtrip(m.header, qw + aw);
    let start = HEADER_LEN as int;
    assert(buf.subrange(start, start + qw.len()) =~= qw);
    lemma_questions_roundtrip(m.questions, buf, start);
    let mid = start + qw.len();
    assert(buf.subrange(mid, mid + aw.len()) =~= aw);
    lemma_answers_roundtrip(m.answers, buf, mid);
}

/// What is written of a message whose header and records are in order is
/// decoded to the message that was written: to the message itself if its
/// header counts its records and it takes no more than 512 octets, else to
/// what is left of it when the records that do not fit are cut off.
pub proof fn lemma_wire_decodes(m: MessageView)
    requires
        m.header.wf(),
        forall|i: int| 0 <= i < m.questions.len() ==> (#[trigger] m.questions[i]).wf(),
        forall|i: int| 0 <= i < m.answers.len() ==> (#[trigger] m.answers[i]).wf(),
        m.fits() ==> m.wf(),
    ensures
        m.fits() ==> parse_message(m.wire()) == Ok::<MessageView, DecodeError>(m),
        !m.fits() ==> parse_message(m.wire()) == Ok::<MessageView, DecodeError>(m.truncated()),
{
    if m.fits() {
        lemma_message_roundtrip(m);
    } else {
        lemma_truncated_wf(m);
        lemma_message_roundtrip(m.truncated());
    }
}

/// A decoded message is in order: its header fits its bits and counts its
/// records, each name is a name as it is held in memory, and each answer's
/// length is that of its data.
pub proof fn lemma_parse_message_valid(buf: Seq<u8>)
    requires
        parse_message(buf) is Ok,
    ensures
        parse_message(buf)->Ok_0.wf(),
        HEADER_LEN <= message_end(buf) <= buf.len(),
{
    let h = parse_header(buf)->Ok_0;
    lemma_parse_header_wf(buf);
    lemma_parse_questions_valid(buf, HEADER_LEN as int, h.qdcount as nat);
    let p = parse_questions(buf, HEADER_LEN as int, h.qdcount as nat)->Ok_0.1;
    lemma_parse_answers_valid(buf, p, h.ancount as nat);
}

/// Decoding, encoding and decoding again gives the message of the first
/// decoding: whatever compression pointers a datagram uses, the message that
/// is decoded from it, if it takes no more than 512 octets without them, is
/// written with its names in full and read back as it was.
pub proof fn lemma_decode_encode_decode(buf: Seq<u8>)
    requires
        parse_message(buf) is Ok,
        parse_message(buf)->Ok_0.full_wire().len() <= MAX_MESSAGE_LEN,
    ensures
        parse_message(parse_message(buf)->Ok_0.wire()) == parse_message(buf),
        message_is_plain(parse_message(buf)->Ok_0.wire()),
{
    let m = parse_message(buf)->Ok_0;
    lemma_parse_message_valid(buf);
    lemma_fits_iff_short(m);
    lemma_message_roundtrip(m);
}

/// A datagram of no more than 512 octets that holds a message without
/// compression pointers, and nothing behind its last answer, is written again
/// octet for octet when the message that is decoded from it is encoded.
pub proof fn lemma_plain_message_roundtrip(buf: Seq<u8>)
    requires
        parse_message(buf) is Ok,
        message_is_plain(buf),
        message_end(buf) == buf.len(),
        buf.len() <= MAX_MESSAGE_LEN,
    ensures
        parse_message(buf)->Ok_0.wire() == buf,
{
    let m = parse_message(buf)->Ok_0;
    let h = m.header;
    let start = HEADER_LEN as int;
    lemma_header_wire_roundtrip(buf);
    lemma_plain_questions_wire(buf, start, h.qdcount as nat);
    let mid = parse_questions(buf, start, h.qdcount as nat)->Ok_0.1;
    lemma_plain_answers_wire(buf, mid, h.ancount as nat);
    let end = buf.len() as int;
    assert(buf =~= buf.subrange(0, start) + buf.subrange(start, mid) + buf.subrange(mid, end));
    assert(m.full_wire() == buf);
    lemma_fits_iff_short(m);
}

} // verus!
