//! Answer records: a name, a type, a class, a time to live and the data.

use super::error::{BuildError, DecodeError};
use super::name::{
    decode_name, default_name, default_name_bytes, domain_name, domain_str_name, encode_domain,
    lemma_domain_name_valid, lemma_name_roundtrip, lemma_parse_name_valid, lemma_plain_name_wire,
    name_is_plain, name_wire, parse_name, valid_name,
};
use super::wire::{
    be16, be16_bytes, be32, be32_bytes, lemma_be16_bytes_roundtrip, lemma_be16_roundtrip,
    lemma_be32_bytes_roundtrip, lemma_be32_roundtrip, push_range, push_u16, push_u32, read_u16,
    read_u32,
};
use vstd::prelude::*;

verus! {

/// An answer: a resource record for a name.
#[derive(Debug, Clone, PartialEq, Eq)]
pub struct Answer {
    /// The name, as labels behind their length octets, without a terminator.
    pub name: Vec<u8>,
    /// The record type; 1 is a host address.
    pub qtype: u16,
    /// The record class; 1 is the Internet.
    pub qclass: u16,
    /// The number of seconds for which the record may be kept.
    pub ttl: u32,
    /// The number of octets of the data.
    pub length: u16,
    /// The data, which is not interpreted; for a host address, its four
    /// octets.
    pub data: Vec<u8>,
}

/// An answer as a mathematical value.
pub struct AnswerView {
    pub name: Seq<u8>,
    pub qtype: u16,
    pub qclass: u16,
    pub ttl: u32,
    pub length: u16,
    pub data: Seq<u8>,
}

impl View for Answer {
    type V = AnswerView;

    open spec fn view(&self) -> AnswerView {
        AnswerView {
            name: self.name@,
            qtype: self.qtype,
            qclass: self.qclass,
            ttl: self.ttl,
            length: self.length,
            data: self.data@,
        }
    }
}

impl DeepView for Answer {
    type V = AnswerView;

    open spec fn deep_view(&self) -> AnswerView {
        self@
    }
}

impl AnswerView {
    /// The name is a name as it is held in memory, and `length` is the
    /// number of octets of the data.
    pub open spec fn wf(self) -> bool {
        valid_name(self.name) && self.length == self.data.len()
    }
}

/// The number of octets of an answer between its name and its data.
pub const ANSWER_FIXED_LEN: usize = 10;

/// The time to live of an answer for which none is set.
pub const DEFAULT_TTL: u32 = 60;

/// The data of an answer for which none is set: the address 8.8.8.8.
pub open spec fn default_data() -> Seq<u8> {
    seq![8u8, 8u8, 8u8, 8u8]
}

/// The octets of `a` on the wire: the name with its terminator, the type, the
/// class, the time to live, the length and the data.
pub open spec fn answer_wire(a: AnswerView) -> Seq<u8> {
    name_wire(a.name) + be16_bytes(a.qtype) + be16_bytes(a.qclass) + be32_bytes(a.ttl)
        + be16_bytes(a.length) + a.data
}

/// The octets of the answers `answers` on the wire, one behind the other.
pub open spec fn answers_wire(answers: Seq<AnswerView>) -> Seq<u8>
    decreases answers.len(),
{
    if answers.len() == 0 {
        Seq::empty()
    } else {
        answers_wire(answers.drop_last()) + answer_wire(answers.last())
    }
}

/// The answer that begins at offset `pos` of the message `buf`, and the offset
/// behind it. The data are as many octets as the length field says.
pub open spec fn parse_answer(buf: Seq<u8>, pos: int) -> Result<(AnswerView, int), DecodeError> {
    match parse_name(buf, pos) {
        Err(e) => Err(e),
        Ok((name, end)) => if end + ANSWER_FIXED_LEN > buf.len() {
            Err(DecodeError::ShortRecord)
        } else {
            let length = be16(buf[end + 8], buf[end + 9]);
            let data = end + ANSWER_FIXED_LEN;
            if data + length > buf.len() {
                Err(DecodeError::ShortRecord)
            } else {
                Ok(
                    (
                        AnswerView {
                            name,
                            qtype: be16(buf[end], buf[end + 1]),
                            qclass: be16(buf[end + 2], buf[end + 3]),
                            ttl: be32(buf[end + 4], buf[end + 5], buf[end + 6], buf[end + 7]),
                            length,
                            data: buf.subrange(data, data + length),
                        },
                        data + length,
                    ),
                )
            }
        },
    }
}

/// The `n` answers that stand one behind the other from offset `pos` of the
/// message `buf`, and the offset behind the last; or the error of the first
/// that cannot be read.
pub open spec fn parse_answers(buf: Seq<u8>, pos: int, n: nat) -> Result<
    (Seq<AnswerView>, int),
    DecodeError,
>
    decreases n,
{
    if n == 0 {
        Ok((Seq::empty(), pos))
    } else {
        match parse_answers(buf, pos, (n - 1) as nat) {
            Err(e) => Err(e),
            Ok((answers, p)) => match parse_answer(buf, p) {
                Err(e) => Err(e),
                Ok((a, next)) => Ok((answers.push(a), next)),
            },
        }
    }
}

impl Answer {
    /// The octets of the answer on the wire: the name, a zero octet, the type,
    /// the class, the time to live, the length field and the data, each as it
    /// is held.
    pub fn encode(self) -> (bytes: Vec<u8>)
        ensures
            bytes@ == answer_wire(self@),
    {
        let mut bytes: Vec<u8> = Vec::new();
        self.encode_to(&mut bytes);
        assert(bytes@ =~= answer_wire(self@));
        bytes
    }

    /// Appends the octets of the answer on the wire to `out`.
    pub fn encode_to(&self, out: &mut Vec<u8>)
        ensures
            final(out)@ == old(out)@ + answer_wire(self@),
    {
        push_range(out, self.name.as_slice(), 0, self.name.len());
        out.push(0);
        push_u16(out, self.qtype);
        push_u16(out, self.qclass);
        push_u32(out, self.ttl);
        push_u16(out, self.length);
        push_range(out, self.data.as_slice(), 0, self.data.len());
        assert(out@ =~= old(out)@ + answer_wire(self@));
    }

    /// A builder in which no field is set yet.
    pub fn builder() -> (b: AnswerBuilder)
        ensures
            b@ == AnswerBuilder::defaults(),
    {
        AnswerBuilder::new()
    }

    /// Reads the answer that begins at offset `pos` of the message `bytes`.
    /// Returns it with the offset behind it.
    pub fn decode_one(bytes: &[u8], pos: usize) -> (r: Result<(Answer, usize), DecodeError>)
        ensures
            match r {
                Ok((a, next)) => {
                    &&& parse_answer(bytes@, pos as int) == Ok::<(AnswerView, int), DecodeError>(
                        (a@, next as int),
                    )
                    &&& a@.wf()
                    &&& pos < next <= bytes@.len()
                },
                Err(e) => parse_answer(bytes@, pos as int) == Err::<
                    (AnswerView, int),
                    DecodeError,
                >(e),
            },
    {
        match decode_name(bytes, pos) {
            Err(e) => Err(e),
            Ok((name, end)) => {
                if bytes.len() - end < ANSWER_FIXED_LEN {
                    return Err(DecodeError::ShortRecord);
                }
                let qtype: u16 = read_u16(bytes, end);
                let qclass: u16 = read_u16(bytes, end + 2);
                let ttl: u32 = read_u32(bytes, end + 4);
                let length: u16 = read_u16(bytes, end + 8);
                let start: usize = end + ANSWER_FIXED_LEN;
                if bytes.len() - start < length as usize {
                    return Err(DecodeError::ShortRecord);
                }
                let mut data: Vec<u8> = Vec::new();
                push_range(&mut data, bytes, start, start + length as usize);
                assert(data@ =~= bytes@.subrange(start as int, start + length));
                Ok((Answer { name, qtype, qclass, ttl, length, data }, start + length as usize))
            },
        }
    }

    /// Reads `ancount` answers that stand one behind the other in the message
    /// `bytes`, the first at offset `offset`.
    ///
    /// The whole message is handed over, not the answer section alone: a
    /// compression pointer in a name gives an offset in the message. Returns
    /// the answers, or the error of the first answer that cannot be read.
    pub fn decode(bytes: &[u8], ancount: usize, offset: usize) -> (r: Result<
        Vec<Answer>,
        DecodeError,
    >)
        ensures
            match r {
                Ok(answers) => {
                    &&& parse_answers(bytes@, offset as int, ancount as nat) is Ok
                    &&& parse_answers(bytes@, offset as int, ancount as nat)->Ok_0.0
                        == answers.deep_view()
                    &&& answers@.len() == ancount
                    &&& forall|i: int| 0 <= i < ancount ==> (#[trigger] answers@[i])@.wf()
                },
                Err(e) => parse_answers(bytes@, offset as int, ancount as nat) == Err::<
                    (Seq<AnswerView>, int),
                    DecodeError,
                >(e),
            },
    {
        let mut answers: Vec<Answer> = Vec::new();
        let mut pos: usize = offset;
        let mut cnt: usize = 0;
        assert(answers.deep_view() =~= Seq::<AnswerView>::empty());
        while cnt < ancount
            invariant
                cnt <= ancount,
                answers@.len() == cnt,
                forall|i: int| 0 <= i < cnt ==> (#[trigger] answers@[i])@.wf(),
                parse_answers(bytes@, offset as int, cnt as nat) == Ok::<
                    (Seq<AnswerView>, int),
                    DecodeError,
                >((answers.deep_view(), pos as int)),
            decreases ancount - cnt,
        {
            match Answer::decode_one(bytes, pos) {
                Err(e) => {
                    proof {
                        lemma_parse_answers_fails(
                            bytes@,
                            offset as int,
                            (cnt + 1) as nat,
                            ancount as nat,
                        );
                    }
                    return Err(e);
                },
                Ok((a, next)) => {
                    let ghost before = answers.deep_view();
                    answers.push(a);
                    assert(answers.deep_view() =~= before.push(a@));
                    pos = next;
                    cnt = cnt + 1;
                },
            }
        }
        Ok(answers)
    }
}

/// Collects the fields of an answer one by one. A field that is never set has
/// its default when the answer is built.
pub struct AnswerBuilder {
    name: Option<Vec<u8>>,
    qtype: Option<u16>,
    qclass: Option<u16>,
    ttl: Option<u32>,
    length: Option<u16>,
    data: Option<Vec<u8>>,
}

impl View for AnswerBuilder {
    type V = AnswerView;

    /// The answer that `build` gives: each field as it was set, or its
    /// default.
    closed spec fn view(&self) -> AnswerView {
        let d = Self::defaults();
        AnswerView {
            name: match self.name {
                Some(n) => n@,
                None => d.name,
            },
            qtype: match self.qtype {
                Some(t) => t,
                None => d.qtype,
            },
            qclass: match self.qclass {
                Some(c) => c,
                None => d.qclass,
            },
            ttl: match self.ttl {
                Some(t) => t,
                None => d.ttl,
            },
            length: match self.length {
                Some(l) => l,
                None => d.length,
            },
            data: match self.data {
                Some(v) => v@,
                None => d.data,
            },
        }
    }
}

impl AnswerBuilder {
    /// The answer that is built when no field is set: the host address
    /// 8.8.8.8 in the Internet class for the name `codecrafters.io`, to be
    /// kept for a minute.
    pub open spec fn defaults() -> AnswerView {
        AnswerView {
            name: default_name(),
            qtype: 1,
            qclass: 1,
            ttl: DEFAULT_TTL,
            length: 4,
            data: default_data(),
        }
    }

    /// A builder in which no field is set yet.
    pub fn new() -> (b: Self)
        ensures
            b@ == Self::defaults(),
    {
        Self { name: None, qtype: None, qclass: None, ttl: None, length: None, data: None }
    }

    /// Sets the name from a domain string such as `example.com`.
    ///
    /// Each part between dots becomes a label. A string with an empty part
    /// or one of more than 63 octets is refused, and so is one whose name
    /// would pass 254 octets.
    pub fn name(self, name: String) -> (r: Result<Self, BuildError>)
        ensures
            match domain_str_name(name@) {
                Ok(n) => r is Ok && r->Ok_0@ == (AnswerView { name: n, ..self@ }),
                Err(e) => r == Err::<Self, BuildError>(e),
            },
    {
        match encode_domain(name.as_str()) {
            Err(e) => Err(e),
            Ok(n) => {
                let mut b = self;
                b.name = Some(n);
                Ok(b)
            },
        }
    }

    /// Sets the name from labels behind their length octets, without a
    /// terminator. The octets are taken as they are.
    pub fn name_bytes(self, name: Vec<u8>) -> (r: Result<Self, BuildError>)
        ensures
            r is Ok,
            r->Ok_0@ == (AnswerView { name: name@, ..self@ }),
    {
        let mut b = self;
        b.name = Some(name);
        Ok(b)
    }

    /// Sets the record type.
    pub fn qtype(self, qtype: u16) -> (r: Result<Self, BuildError>)
        ensures
            r is Ok,
            r->Ok_0@ == (AnswerView { qtype, ..self@ }),
    {
        let mut b = self;
        b.qtype = Some(qtype);
        Ok(b)
    }

    /// Sets the record class.
    pub fn qclass(self, qclass: u16) -> (r: Result<Self, BuildError>)
        ensures
            r is Ok,
            r->Ok_0@ == (AnswerView { qclass, ..self@ }),
    {
        let mut b = self;
        b.qclass = Some(qclass);
        Ok(b)
    }

    /// Sets the time to live, in seconds.
    pub fn ttl(self, ttl: u32) -> (r: Result<Self, BuildError>)
        ensures
            r is Ok,
            r->Ok_0@ == (AnswerView { ttl, ..self@ }),
    {
        let mut b = self;
        b.ttl = Some(ttl);
        Ok(b)
    }

    /// Sets the length field. The data are set apart from it.
    pub fn length(self, length: u16) -> (r: Result<Self, BuildError>)
        ensures
            r is Ok,
            r->Ok_0@ == (AnswerView { length, ..self@ }),
    {
        let mut b = self;
        b.length = Some(length);
        Ok(b)
    }

    /// Sets the data. The length field is set apart from them.
    pub fn data(self, data: Vec<u8>) -> (r: Result<Self, BuildError>)
        ensures
            r is Ok,
            r->Ok_0@ == (AnswerView { data: data@, ..self@ }),
    {
        let mut b = self;
        b.data = Some(data);
        Ok(b)
    }

    /// The answer with each field as it was set, or its default.
    pub fn build(self) -> (a: Answer)
        ensures
            a@ == self@,
    {
        let name: Vec<u8> = match self.name {
            Some(n) => n,
            None => default_name_bytes(),
        };
        let data: Vec<u8> = match self.data {
            Some(d) => d,
            None => default_data_bytes(),
        };
        Answer {
            name,
            qtype: self.qtype.unwrap_or(1),
            qclass: self.qclass.unwrap_or(1),
            ttl: self.ttl.unwrap_or(DEFAULT_TTL),
            length: self.length.unwrap_or(4),
            data,
        }
    }
}

/// A vector with the address 8.8.8.8.
pub fn default_data_bytes() -> (data: Vec<u8>)
    ensures
        data@ == default_data(),
{
    let mut data: Vec<u8> = Vec::new();
    data.push(8);
    data.push(8);
    data.push(8);
    data.push(8);
    assert(data@ =~= default_data());
    data
}

/// Once an answer cannot be read, no longer run of answers can.
pub proof fn lemma_parse_answers_fails(buf: Seq<u8>, pos: int, k: nat, n: nat)
    requires
        k <= n,
        parse_answers(buf, pos, k) is Err,
    ensures
        parse_answers(buf, pos, n) == parse_answers(buf, pos, k),
    decreases n,
{
    if k < n {
        lemma_parse_answers_fails(buf, pos, k, (n - 1) as nat);
    }
}

/// What is read as answers are as many answers as were asked for, each with a
/// name as it is held in memory and a length that is that of its data, and
/// the offset behind them lies in the buffer, not before the offset at which
/// they began.
pub proof fn lemma_parse_answers_valid(buf: Seq<u8>, pos: int, n: nat)
    requires
        parse_answers(buf, pos, n) is Ok,
    ensures
        parse_answers(buf, pos, n)->Ok_0.0.len() == n,
        forall|i: int| 0 <= i < n ==> (#[trigger] parse_answers(buf, pos, n)->Ok_0.0[i]).wf(),
        pos <= parse_answers(buf, pos, n)->Ok_0.1,
        n > 0 ==> parse_answers(buf, pos, n)->Ok_0.1 <= buf.len(),
    decreases n,
{
    if n > 0 {
        lemma_parse_answers_valid(buf, pos, (n - 1) as nat);
        let p = parse_answers(buf, pos, (n - 1) as nat)->Ok_0.1;
        lemma_parse_name_valid(buf, p);
    }
}

/// An answer with a name as it is held in memory and a length that is that
/// of its data, written at offset `pos` of a buffer, is read back as it was,
/// and the offset behind it is the end of what was written.
pub proof fn lemma_answer_roundtrip(a: AnswerView, buf: Seq<u8>, pos: int)
    requires
        a.wf(),
        0 <= pos,
        pos + answer_wire(a).len() <= buf.len(),
        buf.subrange(pos, pos + answer_wire(a).len()) == answer_wire(a),
    ensures
        parse_answer(buf, pos) == Ok::<(AnswerView, int), DecodeError>(
            (a, pos + answer_wire(a).len()),
        ),
        name_is_plain(buf, pos),
{
    let w = answer_wire(a);
    let n = a.name.len() as int;
    assert(w.len() == n + 11 + a.data.len());
    assert forall|i: int| 0 <= i < w.len() implies buf[pos + i] == w[i] by {
        assert(buf.subrange(pos, pos + w.len())[i] == buf[pos + i]);
    }
    assert(buf.subrange(pos, pos + n + 1) =~= name_wire(a.name)) by {
        assert forall|i: int| 0 <= i < n + 1 implies buf[pos + i] == name_wire(a.name)[i] by {
            assert(w[i] == name_wire(a.name)[i]);
        }
    }
    lemma_name_roundtrip(a.name, buf, pos);
    let end = pos + n + 1;
    assert(buf[end] == w[n + 1] && buf[end + 1] == w[n + 2]);
    assert(buf[end + 2] == w[n + 3] && buf[end + 3] == w[n + 4]);
    assert(buf[end + 4] == w[n + 5] && buf[end + 5] == w[n + 6]);
    assert(buf[end + 6] == w[n + 7] && buf[end + 7] == w[n + 8]);
    assert(buf[end + 8] == w[n + 9] && buf[end + 9] == w[n + 10]);
    lemma_be16_roundtrip(a.qtype);
    lemma_be16_roundtrip(a.qclass);
    lemma_be32_roundtrip(a.ttl);
    lemma_be16_roundtrip(a.length);
    assert(w[n + 1] == be16_bytes(a.qtype)[0] && w[n + 2] == be16_bytes(a.qtype)[1]);
    assert(w[n + 3] == be16_bytes(a.qclass)[0] && w[n + 4] == be16_bytes(a.qclass)[1]);
    assert(w[n + 5] == be32_bytes(a.ttl)[0] && w[n + 6] == be32_bytes(a.ttl)[1]);
    assert(w[n + 7] == be32_bytes(a.ttl)[2] && w[n + 8] == be32_bytes(a.ttl)[3]);
    assert(w[n + 9] == be16_bytes(a.length)[0] && w[n + 10] == be16_bytes(a.length)[1]);
    let data = end + ANSWER_FIXED_LEN;
    assert(buf.subrange(data, data + a.length) =~= a.data) by {
        assert forall|i: int| 0 <= i < a.data.len() implies buf[data + i] == a.data[i] by {
            assert(buf[pos + (n + 11 + i)] == w[n + 11 + i]);
        }
    }
}

/// An answer whose name is that of a domain string, and whose length is that
/// of its data, is read back from its wire form as it was.
pub proof fn lemma_domain_answer_roundtrip(
    domain: Seq<u8>,
    qtype: u16,
    qclass: u16,
    ttl: u32,
    data: Seq<u8>,
)
    requires
        domain_name(domain) is Ok,
        data.len() <= u16::MAX,
    ensures
        ({
            let a = AnswerView {
                name: domain_name(domain)->Ok_0,
                qtype,
                qclass,
                ttl,
                length: data.len() as u16,
                data,
            };
            parse_answer(answer_wire(a), 0) == Ok::<(AnswerView, int), DecodeError>(
                (a, answer_wire(a).len() as int),
            )
        }),
{
    let a = AnswerView {
        name: domain_name(domain)->Ok_0,
        qtype,
        qclass,
        ttl,
        length: data.len() as u16,
        data,
    };
    let w = answer_wire(a);
    lemma_domain_name_valid(domain);
    assert(w.subrange(0, w.len() as int) =~= w);
    lemma_answer_roundtrip(a, w, 0);
}

/// The wire form of a run of answers begins with that of the first.
pub proof fn lemma_answers_wire_front(answers: Seq<AnswerView>)
    requires
        answers.len() > 0,
    ensures
        answers_wire(answers) == answer_wire(answers[0]) + answers_wire(answers.drop_first()),
    decreases answers.len(),
{
    let rest = answers.drop_first();
    if answers.len() == 1 {
        assert(answers.drop_last() =~= Seq::<AnswerView>::empty());
        assert(rest =~= Seq::<AnswerView>::empty());
        assert(answers_wire(answers) =~= answer_wire(answers[0]) + answers_wire(rest));
    } else {
        let front = answers.drop_last();
        lemma_answers_wire_front(front);
        assert(front.drop_first() =~= rest.drop_last());
        assert(rest.last() == answers.last());
        assert(answers_wire(answers) =~= answer_wire(answers[0]) + answers_wire(rest));
    }
}

/// Answers with names as they are held in memory and lengths that are those
/// of their data, written one behind the other from offset `pos` of a
/// buffer, are read back as they were, and the offset behind them is the end
/// of what was written.
pub proof fn lemma_answers_roundtrip(answers: Seq<AnswerView>, buf: Seq<u8>, pos: int)
    requires
        forall|i: int| 0 <= i < answers.len() ==> (#[trigger] answers[i]).wf(),
        0 <= pos,
        pos + answers_wire(answers).len() <= buf.len(),
        buf.subrange(pos, pos + answers_wire(answers).len()) == answers_wire(answers),
    ensures
        parse_answers(buf, pos, answers.len()) == Ok::<(Seq<AnswerView>, int), DecodeError>(
            (answers, pos + answers_wire(answers).len()),
        ),
        answers_plain(buf, pos, answers.len()),
    decreases answers.len(),
{
    if answers.len() == 0 {
        assert(answers =~= Seq::<AnswerView>::empty());
    } else {
        let front = answers.drop_last();
        let last = answers.last();
        let all = answers_wire(answers);
        let head = answers_wire(front);
        let tail = answer_wire(last);
        assert(all == head + tail);
        assert forall|i: int| 0 <= i < all.len() implies buf[pos + i] == all[i] by {
            assert(buf.subrange(pos, pos + all.len())[i] == buf[pos + i]);
        }
        assert(buf.subrange(pos, pos + head.len()) =~= head) by {
            assert forall|i: int| 0 <= i < head.len() implies buf[pos + i] == head[i] by {
                assert(all[i] == head[i]);
            }
        }
        lemma_answers_roundtrip(front, buf, pos);
        let mid = pos + head.len();
        assert(buf.subrange(mid, mid + tail.len()) =~= tail) by {
            assert forall|i: int| 0 <= i < tail.len() implies buf[mid + i] == tail[i] by {
                assert(buf[pos + (head.len() + i)] == all[head.len() + i]);
            }
        }
        assert(last.wf());
        lemma_answer_roundtrip(last, buf, mid);
        assert(front.push(last) =~= answers);
    }
}

/// The name of each of the `n` answers from offset `pos` of `buf` is written
/// without a compression pointer.
pub open spec fn answers_plain(buf: Seq<u8>, pos: int, n: nat) -> bool
    decreases n,
{
    n == 0 || {
        &&& answers_plain(buf, pos, (n - 1) as nat)
        &&& name_is_plain(buf, parse_answers(buf, pos, (n - 1) as nat)->Ok_0.1)
    }
}

/// The octets of an answer whose name is written without a compression
/// pointer are the wire form of the answer that is decoded from them.
pub proof fn lemma_plain_answer_wire(buf: Seq<u8>, pos: int)
    requires
        name_is_plain(buf, pos),
        parse_answer(buf, pos) is Ok,
    ensures
        ({
            let (a, next) = parse_answer(buf, pos)->Ok_0;
            &&& pos <= next <= buf.len()
            &&& buf.subrange(pos, next) == answer_wire(a)
        }),
{
    lemma_plain_name_wire(buf, pos);
    let (a, next) = parse_answer(buf, pos)->Ok_0;
    let end = parse_name(buf, pos)->Ok_0.1;
    lemma_be16_bytes_roundtrip(buf[end], buf[end + 1]);
    lemma_be16_bytes_roundtrip(buf[end + 2], buf[end + 3]);
    lemma_be32_bytes_roundtrip(buf[end + 4], buf[end + 5], buf[end + 6], buf[end + 7]);
    lemma_be16_bytes_roundtrip(buf[end + 8], buf[end + 9]);
    assert(buf.subrange(pos, next) =~= buf.subrange(pos, end) + seq![buf[end], buf[end + 1]]
        + seq![buf[end + 2], buf[end + 3]] + seq![
        buf[end + 4],
        buf[end + 5],
        buf[end + 6],
        buf[end + 7],
    ] + seq![buf[end + 8], buf[end + 9]] + a.data);
}

/// The octets of answers whose names are written without compression
/// pointers are the wire form of the answers that are decoded from them.
pub proof fn lemma_plain_answers_wire(buf: Seq<u8>, pos: int, n: nat)
    requires
        0 <= pos <= buf.len(),
        answers_plain(buf, pos, n),
        parse_answers(buf, pos, n) is Ok,
    ensures
        ({
            let (answers, end) = parse_answers(buf, pos, n)->Ok_0;
            &&& pos <= end <= buf.len()
            &&& buf.subrange(pos, end) == answers_wire(answers)
        }),
    decreases n,
{
    if n == 0 {
        assert(buf.subrange(pos, pos) =~= Seq::<u8>::empty());
    } else {
        lemma_plain_answers_wire(buf, pos, (n - 1) as nat);
        let (front, mid) = parse_answers(buf, pos, (n - 1) as nat)->Ok_0;
        lemma_plain_answer_wire(buf, mid);
        let (a, end) = parse_answer(buf, mid)->Ok_0;
        let answers = front.push(a);
        assert(answers.drop_last() =~= front);
        assert(buf.subrange(pos, end) =~= buf.subrange(pos, mid) + buf.subrange(mid, end));
    }
}

} // verus!
