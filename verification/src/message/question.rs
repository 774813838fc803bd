//! Question records: a name, a type and a class.

use super::error::{BuildError, DecodeError};
use super::name::{
    decode_name, default_name, default_name_bytes, domain_name, domain_str_name, encode_domain,
    lemma_domain_name_valid, lemma_name_roundtrip, lemma_parse_name_valid, lemma_plain_name_wire,
    name_is_plain, name_wire, parse_name, valid_name,
};
use super::wire::{
    be16, be16_bytes, lemma_be16_bytes_roundtrip, lemma_be16_roundtrip, push_range, push_u16,
    read_u16,
};
use vstd::prelude::*;

verus! {

/// A question: the name that is asked about, and the type and class of the
/// records that are wanted.
#[derive(Debug, Clone, PartialEq, Eq)]
pub struct Question {
    /// The name, as labels behind their length octets, without a terminator.
    pub name: Vec<u8>,
    /// The record type; 1 is a host address.
    pub qtype: u16,
    /// The record class; 1 is the Internet.
    pub qclass: u16,
}

/// A question as a mathematical value.
pub struct QuestionView {
    pub name: Seq<u8>,
    pub qtype: u16,
    pub qclass: u16,
}

impl View for Question {
    type V = QuestionView;

    open spec fn view(&self) -> QuestionView {
        QuestionView { name: self.name@, qtype: self.qtype, qclass: self.qclass }
    }
}

impl DeepView for Question {
    type V = QuestionView;

    open spec fn deep_view(&self) -> QuestionView {
        self@
    }
}

impl QuestionView {
    /// The name is a name as it is held in memory.
    pub open spec fn wf(self) -> bool {
        valid_name(self.name)
    }
}

/// The number of octets of a question behind its name.
pub const QUESTION_FIXED_LEN: usize = 4;

/// The octets of `q` on the wire: the name with its terminator, the type and
/// the class.
pub open spec fn question_wire(q: QuestionView) -> Seq<u8> {
    name_wire(q.name) + be16_bytes(q.qtype) + be16_bytes(q.qclass)
}

/// The octets of the questions `qs` on the wire, one behind the other.
pub open spec fn questions_wire(qs: Seq<QuestionView>) -> Seq<u8>
    decreases qs.len(),
{
    if qs.len() == 0 {
        Seq::empty()
    } else {
        questions_wire(qs.drop_last()) + question_wire(qs.last())
    }
}

/// The question that begins at offset `pos` of the message `buf`, and the
/// offset behind it.
pub open spec fn parse_question(buf: Seq<u8>, pos: int) -> Result<(QuestionView, int), DecodeError> {
    match parse_name(buf, pos) {
        Err(e) => Err(e),
        Ok((name, end)) => if end + QUESTION_FIXED_LEN > buf.len() {
            Err(DecodeError::ShortRecord)
        } else {
            Ok(
                (
                    QuestionView {
                        name,
                        qtype: be16(buf[end], buf[end + 1]),
                        qclass: be16(buf[end + 2], buf[end + 3]),
                    },
                    end + QUESTION_FIXED_LEN,
                ),
            )
        },
    }
}

/// The `n` questions that stand one behind the other from offset `pos` of the
/// message `buf`, and the offset behind the last; or the error of the first
/// that cannot be read.
pub open spec fn parse_questions(buf: Seq<u8>, pos: int, n: nat) -> Result<
    (Seq<QuestionView>, int),
    DecodeError,
>
    decreases n,
{
    if n == 0 {
        Ok((Seq::empty(), pos))
    } else {
        match parse_questions(buf, pos, (n - 1) as nat) {
            Err(e) => Err(e),
            Ok((qs, p)) => match parse_question(buf, p) {
                Err(e) => Err(e),
                Ok((q, next)) => Ok((qs.push(q), next)),
            },
        }
    }
}

impl Question {
    /// The octets of the question on the wire: the name, a zero octet, the
    /// type and the class.
    pub fn encode(self) -> (bytes: Vec<u8>)
        ensures
            bytes@ == question_wire(self@),
    {
        let mut bytes: Vec<u8> = Vec::new();
        self.encode_to(&mut bytes);
        assert(bytes@ =~= question_wire(self@));
        bytes
    }

    /// Appends the octets of the question on the wire to `out`.
    pub fn encode_to(&self, out: &mut Vec<u8>)
        ensures
            final(out)@ == old(out)@ + question_wire(self@),
    {
        push_range(out, self.name.as_slice(), 0, self.name.len());
        out.push(0);
        push_u16(out, self.qtype);
        push_u16(out, self.qclass);
        assert(out@ =~= old(out)@ + question_wire(self@));
    }

    /// A builder in which no field is set yet.
    pub fn builder() -> (b: QuestionBuilder)
        ensures
            b@ == QuestionBuilder::defaults(),
    {
        QuestionBuilder::new()
    }

    /// Reads the question that begins at offset `pos` of the message `bytes`.
    /// Returns it with the offset behind it.
    pub fn decode_one(bytes: &[u8], pos: usize) -> (r: Result<(Question, usize), DecodeError>)
        ensures
            match r {
                Ok((q, next)) => {
                    &&& parse_question(bytes@, pos as int) == Ok::<
                        (QuestionView, int),
                        DecodeError,
                    >((q@, next as int))
                    &&& q@.wf()
                    &&& pos < next <= bytes@.len()
                },
                Err(e) => parse_question(bytes@, pos as int) == Err::<
                    (QuestionView, int),
                    DecodeError,
                >(e),
            },
    {
        match decode_name(bytes, pos) {
            Err(e) => Err(e),
            Ok((name, end)) => {
                if bytes.len() - end < QUESTION_FIXED_LEN {
                    return Err(DecodeError::ShortRecord);
                }
                let qtype: u16 = read_u16(bytes, end);
                let qclass: u16 = read_u16(bytes, end + 2);
                Ok((Question { name, qtype, qclass }, end + QUESTION_FIXED_LEN))
            },
        }
    }

    /// Reads `qncount` questions that stand one behind the other in the
    /// message `bytes`, the first at offset `header_offset`.
    ///
    /// The whole message is handed over, not the question section alone: a
    /// compression pointer in a name gives an offset in the message. Returns
    /// the questions with the number of octets that they take in the message,
    /// or the error of the first question that cannot be read.
    pub fn decode(bytes: &[u8], qncount: usize, header_offset: usize) -> (r: Result<
        (Vec<Question>, usize),
        DecodeError,
    >)
        ensures
            match r {
                Ok((questions, len)) => {
                    &&& parse_questions(bytes@, header_offset as int, qncount as nat) == Ok::<
                        (Seq<QuestionView>, int),
                        DecodeError,
                    >((questions.deep_view(), header_offset + len))
                    &&& questions@.len() == qncount
                    &&& forall|i: int| 0 <= i < qncount ==> (#[trigger] questions@[i])@.wf()
                    &&& qncount > 0 ==> header_offset + len <= bytes@.len()
                    &&& qncount == 0 ==> len == 0
                },
                Err(e) => parse_questions(bytes@, header_offset as int, qncount as nat) == Err::<
                    (Seq<QuestionView>, int),
                    DecodeError,
                >(e),
            },
    {
        let mut questions: Vec<Question> = Vec::new();
        let mut pos: usize = header_offset;
        let mut cnt: usize = 0;
        assert(questions.deep_view() =~= Seq::<QuestionView>::empty());
        while cnt < qncount
            invariant
                cnt <= qncount,
                header_offset <= pos,
                cnt > 0 ==> pos <= bytes@.len(),
                questions@.len() == cnt,
                forall|i: int| 0 <= i < cnt ==> (#[trigger] questions@[i])@.wf(),
                parse_questions(bytes@, header_offset as int, cnt as nat) == Ok::<
                    (Seq<QuestionView>, int),
                    DecodeError,
                >((questions.deep_view(), pos as int)),
            decreases qncount - cnt,
        {
            match Question::decode_one(bytes, pos) {
                Err(e) => {
                    proof {
                        lemma_parse_questions_fails(
                            bytes@,
                            header_offset as int,
                            (cnt + 1) as nat,
                            qncount as nat,
                        );
                    }
                    return Err(e);
                },
                Ok((q, next)) => {
                    let ghost before = questions.deep_view();
                    questions.push(q);
                    assert(questions.deep_view() =~= before.push(q@));
                    pos = next;
                    cnt = cnt + 1;
                },
            }
        }
        Ok((questions, pos - header_offset))
    }

    /// Six more than the number of octets of the name.
    pub fn len(&self) -> (n: usize)
        requires
            self.name@.len() + 6 <= usize::MAX,
        ensures
            n == self.name@.len() + 6,
    {
        self.name.len() + 6
    }
}

/// Collects the fields of a question one by one. A field that is never set
/// has its default when the question is built.
pub struct QuestionBuilder {
    name: Option<Vec<u8>>,
    qtype: Option<u16>,
    qclass: Option<u16>,
}

impl View for QuestionBuilder {
    type V = QuestionView;

    /// The question that `build` gives: each field as it was set, or its
    /// default.
    closed spec fn view(&self) -> QuestionView {
        let d = Self::defaults();
        QuestionView {
            name: match self.name {
                Some(n) => n@,
                None => d.name,
            },
            qtype: match self.qtype {
                Some(t) => t,
                None => d.qtype,
            },
            qclass: match self.qclass {
                Some(c) => c,
                None => d.qclass,
            },
        }
    }
}

impl QuestionBuilder {
    /// The question that is built when no field is set: a host address in
    /// the Internet class, for the name `codecrafters.io`.
    pub open spec fn defaults() -> QuestionView {
        QuestionView { name: default_name(), qtype: 1, qclass: 1 }
    }

    /// A builder in which no field is set yet.
    pub fn new() -> (b: Self)
        ensures
            b@ == Self::defaults(),
    {
        Self { name: None, qtype: None, qclass: None }
    }

    /// Sets the name from a domain string such as `example.com`.
    ///
    /// Each part between dots becomes a label. A string with an empty part
    /// or one of more than 63 octets is refused, and so is one whose name
    /// would pass 254 octets.
    pub fn name(self, name: String) -> (r: Result<Self, BuildError>)
        ensures
            match domain_str_name(name@) {
                Ok(n) => r is Ok && r->Ok_0@ == (QuestionView { name: n, ..self@ }),
                Err(e) => r == Err::<Self, BuildError>(e),
            },
    {
        match encode_domain(name.as_str()) {
            Err(e) => Err(e),
            Ok(n) => {
                let mut b = self;
                b.name = Some(n);
                Ok(b)
            },
        }
    }

    /// Sets the name from labels behind their length octets, without a
    /// terminator. The octets are taken as they are.
    pub fn name_bytes(self, name: Vec<u8>) -> (r: Result<Self, BuildError>)
        ensures
            r is Ok,
            r->Ok_0@ == (QuestionView { name: name@, ..self@ }),
    {
        let mut b = self;
        b.name = Some(name);
        Ok(b)
    }

    /// Sets the record type.
    pub fn qtype(self, qtype: u16) -> (b: Self)
        ensures
            b@ == (QuestionView { qtype, ..self@ }),
    {
        let mut b = self;
        b.qtype = Some(qtype);
        b
    }

    /// Sets the record class.
    pub fn qclass(self, qclass: u16) -> (b: Self)
        ensures
            b@ == (QuestionView { qclass, ..self@ }),
    {
        let mut b = self;
        b.qclass = Some(qclass);
        b
    }

    /// The question with each field as it was set, or its default.
    pub fn build(self) -> (q: Question)
        ensures
            q@ == self@,
    {
        let name: Vec<u8> = match self.name {
            Some(n) => n,
            None => default_name_bytes(),
        };
        Question { name, qtype: self.qtype.unwrap_or(1), qclass: self.qclass.unwrap_or(1) }
    }
}

/// Once a question cannot be read, no longer run of questions can.
pub proof fn lemma_parse_questions_fails(buf: Seq<u8>, pos: int, k: nat, n: nat)
    requires
        k <= n,
        parse_questions(buf, pos, k) is Err,
    ensures
        parse_questions(buf, pos, n) == parse_questions(buf, pos, k),
    decreases n,
{
    if k < n {
        lemma_parse_questions_fails(buf, pos, k, (n - 1) as nat);
    }
}

/// What is read as questions are as many questions as were asked for, each
/// with a name as it is held in memory, and the offset behind them lies in
/// the buffer, not before the offset at which they began.
pub proof fn lemma_parse_questions_valid(buf: Seq<u8>, pos: int, n: nat)
    requires
        parse_questions(buf, pos, n) is Ok,
    ensures
        parse_questions(buf, pos, n)->Ok_0.0.len() == n,
        forall|i: int| 0 <= i < n ==> (#[trigger] parse_questions(buf, pos, n)->Ok_0.0[i]).wf(),
        pos <= parse_questions(buf, pos, n)->Ok_0.1,
        n > 0 ==> parse_questions(buf, pos, n)->Ok_0.1 <= buf.len(),
    decreases n,
{
    if n > 0 {
        lemma_parse_questions_valid(buf, pos, (n - 1) as nat);
        let p = parse_questions(buf, pos, (n - 1) as nat)->Ok_0.1;
        lemma_parse_name_valid(buf, p);
    }
}

/// A question with a name as it is held in memory, written at offset `pos` of
/// a buffer, is read back as it was, and the offset behind it is the end of
/// what was written.
pub proof fn lemma_question_roundtrip(q: QuestionView, buf: Seq<u8>, pos: int)
    requires
        q.wf(),
        0 <= pos,
        pos + question_wire(q).len() <= buf.len(),
        buf.subrange(pos, pos + question_wire(q).len()) == question_wire(q),
    ensures
        parse_question(buf, pos) == Ok::<(QuestionView, int), DecodeError>(
            (q, pos + question_wire(q).len()),
        ),
        name_is_plain(buf, pos),
{
    let w = question_wire(q);
    let n = q.name.len() as int;
    assert(w.len() == n + 5);
    assert forall|i: int| 0 <= i < w.len() implies buf[pos + i] == w[i] by {
        assert(buf.subrange(pos, pos + w.len())[i] == buf[pos + i]);
    }
    assert(buf.subrange(pos, pos + n + 1) =~= name_wire(q.name)) by {
        assert forall|i: int| 0 <= i < n + 1 implies buf[pos + i] == name_wire(q.name)[i] by {
            assert(w[i] == name_wire(q.name)[i]);
        }
    }
    lemma_name_roundtrip(q.name, buf, pos);
    let end = pos + n + 1;
    assert(buf[end] == w[n + 1] && buf[end + 1] == w[n + 2]);
    assert(buf[end + 2] == w[n + 3] && buf[end + 3] == w[n + 4]);
    lemma_be16_roundtrip(q.qtype);
    lemma_be16_roundtrip(q.qclass);
    assert(w[n + 1] == be16_bytes(q.qtype)[0] && w[n + 2] == be16_bytes(q.qtype)[1]);
    assert(w[n + 3] == be16_bytes(q.qclass)[0] && w[n + 4] == be16_bytes(q.qclass)[1]);
}

/// A question whose name is that of a domain string is read back from its
/// wire form as it was.
pub proof fn lemma_domain_question_roundtrip(domain: Seq<u8>, qtype: u16, qclass: u16)
    requires
        domain_name(domain) is Ok,
    ensures
        ({
            let q = QuestionView { name: domain_name(domain)->Ok_0, qtype, qclass };
            parse_question(question_wire(q), 0) == Ok::<(QuestionView, int), DecodeError>(
                (q, question_wire(q).len() as int),
            )
        }),
{
    let q = QuestionView { name: domain_name(domain)->Ok_0, qtype, qclass };
    let w = question_wire(q);
    lemma_domain_name_valid(domain);
    assert(w.subrange(0, w.len() as int) =~= w);
    lemma_question_roundtrip(q, w, 0);
}

/// The wire form of a run of questions begins with that of the first.
pub proof fn lemma_questions_wire_front(qs: Seq<QuestionView>)
    requires
        qs.len() > 0,
    ensures
        questions_wire(qs) == question_wire(qs[0]) + questions_wire(qs.drop_first()),
    decreases qs.len(),
{
    if qs.len() == 1 {
        assert(qs.drop_last() =~= Seq::<QuestionView>::empty());
        assert(qs.drop_first() =~= Seq::<QuestionView>::empty());
        assert(questions_wire(qs) =~= question_wire(qs[0]) + questions_wire(qs.drop_first()));
    } else {
        let front = qs.drop_last();
        lemma_questions_wire_front(front);
        assert(front.drop_first() =~= qs.drop_first().drop_last());
        assert(qs.drop_first().last() == qs.last());
        assert(questions_wire(qs) =~= question_wire(qs[0]) + questions_wire(qs.drop_first()));
    }
}

/// Questions with names as they are held in memory, written one behind the
/// other from offset `pos` of a buffer, are read back as they were, and the
/// offset behind them is the end of what was written.
pub proof fn lemma_questions_roundtrip(qs: Seq<QuestionView>, buf: Seq<u8>, pos: int)
    requires
        forall|i: int| 0 <= i < qs.len() ==> (#[trigger] qs[i]).wf(),
        0 <= pos,
        pos + questions_wire(qs).len() <= buf.len(),
        buf.subrange(pos, pos + questions_wire(qs).len()) == questions_wire(qs),
    ensures
        parse_questions(buf, pos, qs.len()) == Ok::<(Seq<QuestionView>, int), DecodeError>(
            (qs, pos + questions_wire(qs).len()),
        ),
        questions_plain(buf, pos, qs.len()),
    decreases qs.len(),
{
    if qs.len() == 0 {
        assert(qs =~= Seq::<QuestionView>::empty());
    } else {
        let front = qs.drop_last();
        let last = qs.last();
        let all = questions_wire(qs);
        let head = questions_wire(front);
        let tail = question_wire(last);
        assert(all == head + tail);
        assert forall|i: int| 0 <= i < all.len() implies buf[pos + i] == all[i] by {
            assert(buf.subrange(pos, pos + all.len())[i] == buf[pos + i]);
        }
        assert(buf.subrange(pos, pos + head.len()) =~= head) by {
            assert forall|i: int| 0 <= i < head.len() implies buf[pos + i] == head[i] by {
                assert(all[i] == head[i]);
            }
        }
        lemma_questions_roundtrip(front, buf, pos);
        let mid = pos + head.len();
        assert(buf.subrange(mid, mid + tail.len()) =~= tail) by {
            assert forall|i: int| 0 <= i < tail.len() implies buf[mid + i] == tail[i] by {
                assert(buf[pos + (head.len() + i)] == all[head.len() + i]);
            }
        }
        assert(last.wf());
        lemma_question_roundtrip(last, buf, mid);
        assert(front.push(last) =~= qs);
    }
}

/// The name of each of the `n` questions from offset `pos` of `buf` is
/// written without a compression pointer.
pub open spec fn questions_plain(buf: Seq<u8>, pos: int, n: nat) -> bool
    decreases n,
{
    n == 0 || {
        &&& questions_plain(buf, pos, (n - 1) as nat)
        &&& name_is_plain(buf, parse_questions(buf, pos, (n - 1) as nat)->Ok_0.1)
    }
}

/// The octets of a question whose name is written without a compression
/// pointer are the wire form of the question that is decoded from them.
pub proof fn lemma_plain_question_wire(buf: Seq<u8>, pos: int)
    requires
        name_is_plain(buf, pos),
        parse_question(buf, pos) is Ok,
    ensures
        ({
            let (q, next) = parse_question(buf, pos)->Ok_0;
            &&& pos <= next <= buf.len()
            &&& buf.subrange(pos, next) == question_wire(q)
        }),
{
    lemma_plain_name_wire(buf, pos);
    let (q, next) = parse_question(buf, pos)->Ok_0;
    let end = parse_name(buf, pos)->Ok_0.1;
    lemma_be16_bytes_roundtrip(buf[end], buf[end + 1]);
    lemma_be16_bytes_roundtrip(buf[end + 2], buf[end + 3]);
    assert(buf.subrange(pos, next) =~= buf.subrange(pos, end) + seq![buf[end], buf[end + 1]]
        + seq![buf[end + 2], buf[end + 3]]);
}

/// The octets of questions whose names are written without compression
/// pointers are the wire form of the questions that are decoded from them.
pub proof fn lemma_plain_questions_wire(buf: Seq<u8>, pos: int, n: nat)
    requires
        0 <= pos <= buf.len(),
        questions_plain(buf, pos, n),
        parse_questions(buf, pos, n) is Ok,
    ensures
        ({
            let (qs, end) = parse_questions(buf, pos, n)->Ok_0;
            &&& pos <= end <= buf.len()
            &&& buf.subrange(pos, end) == questions_wire(qs)
        }),
    decreases n,
{
    if n == 0 {
        assert(buf.subrange(pos, pos) =~= Seq::<u8>::empty());
    } else {
        lemma_plain_questions_wire(buf, pos, (n - 1) as nat);
        let (front, mid) = parse_questions(buf, pos, (n - 1) as nat)->Ok_0;
        lemma_plain_question_wire(buf, mid);
        let (q, end) = parse_question(buf, mid)->Ok_0;
        let qs = front.push(q);
        assert(qs.drop_last() =~= front);
        assert(buf.subrange(pos, end) =~= buf.subrange(pos, mid) + buf.subrange(mid, end));
    }
}

} // verus!
