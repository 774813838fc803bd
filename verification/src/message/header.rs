//! The fixed twelve-octet header.
//!
//! On the wire: the identifier, two flag octets and four section counts, all
//! big-endian. The first flag octet packs `qr`, `opcode`, `aa`, `tc` and `rd`
//! from the top bit down, the second `ra`, `z` and `rcode`.

use super::error::{BuildError, DecodeError};
use super::wire::{be16, be16_bytes, lemma_be16_bytes_roundtrip, push_u16, read_u16};
use vstd::prelude::*;

verus! {

/// The number of octets of a header on the wire.
pub const HEADER_LEN: usize = 12;

/// The header of a message.
#[derive(Clone, Copy, Debug, PartialEq, Eq, Structural)]
pub struct Header {
    /// The transaction identifier, echoed in the reply.
    pub id: u16,
    /// Whether the message is a response.
    pub qr: bool,
    /// The kind of query, in four bits; 0 is a standard query.
    pub opcode: u8,
    /// Authoritative answer.
    pub aa: bool,
    /// Truncation.
    pub tc: bool,
    /// Recursion desired.
    pub rd: bool,
    /// Recursion available.
    pub ra: bool,
    /// Reserved, in three bits.
    pub z: u8,
    /// The response code, in four bits; 0 is no error, 4 is not implemented.
    pub rcode: u8,
    /// The number of question records.
    pub qdcount: u16,
    /// The number of answer records.
    pub ancount: u16,
    /// The number of authority records.
    pub nscount: u16,
    /// The number of additional records.
    pub arcount: u16,
}

/// A flag as one bit.
pub open spec fn bit(b: bool) -> u8 {
    if b {
        1u8
    } else {
        0u8
    }
}

/// The first flag octet: `qr`, four bits of `opcode`, `aa`, `tc`, `rd`.
pub open spec fn flags1(h: Header) -> u8 {
    (bit(h.qr) << 7) | (h.opcode << 3) | (bit(h.aa) << 2) | (bit(h.tc) << 1) | bit(h.rd)
}

/// The second flag octet: `ra`, three bits of `z`, four bits of `rcode`.
pub open spec fn flags2(h: Header) -> u8 {
    (bit(h.ra) << 7) | (h.z << 4) | h.rcode
}

/// The twelve octets of `h` on the wire.
pub open spec fn header_wire(h: Header) -> Seq<u8> {
    be16_bytes(h.id) + seq![flags1(h), flags2(h)] + be16_bytes(h.qdcount) + be16_bytes(h.ancount)
        + be16_bytes(h.nscount) + be16_bytes(h.arcount)
}

/// The header that the first twelve octets of `buf` hold; there is none if
/// `buf` is shorter.
pub open spec fn parse_header(buf: Seq<u8>) -> Result<Header, DecodeError> {
    if buf.len() < HEADER_LEN {
        Err(DecodeError::ShortHeader)
    } else {
        Ok(
            Header {
                id: be16(buf[0], buf[1]),
                qr: buf[2] & 0x80 != 0,
                opcode: (buf[2] >> 3) & 0x0f,
                aa: buf[2] & 0x04 != 0,
                tc: buf[2] & 0x02 != 0,
                rd: buf[2] & 0x01 != 0,
                ra: buf[3] & 0x80 != 0,
                z: (buf[3] >> 4) & 0x07,
                rcode: buf[3] & 0x0f,
                qdcount: be16(buf[4], buf[5]),
                ancount: be16(buf[6], buf[7]),
                nscount: be16(buf[8], buf[9]),
                arcount: be16(buf[10], buf[11]),
            },
        )
    }
}

impl Header {
    /// Every field fits the bits it has on the wire.
    pub open spec fn wf(self) -> bool {
        self.opcode <= 15 && self.z <= 7 && self.rcode <= 15
    }

    /// A builder in which no field is set yet.
    pub fn builder() -> (b: HeaderBuilder)
        ensures
            b@ == HeaderBuilder::defaults(),
    {
        HeaderBuilder::new()
    }

    /// The twelve octets of the header on the wire.
    ///
    /// The fields are packed as they are held. Whether they fit their bits is
    /// not looked at here: the builder refuses a value that does not, and a
    /// decoded header has none.
    pub fn encode(self) -> (bytes: Vec<u8>)
        ensures
            bytes@ == header_wire(self),
    {
        let mut bytes: Vec<u8> = Vec::new();
        push_u16(&mut bytes, self.id);
        let f1: u8 = (flag(self.qr) << 7) | (self.opcode << 3) | (flag(self.aa) << 2) | (flag(
            self.tc,
        ) << 1) | flag(self.rd);
        bytes.push(f1);
        let f2: u8 = (flag(self.ra) << 7) | (self.z << 4) | self.rcode;
        bytes.push(f2);
        push_u16(&mut bytes, self.qdcount);
        push_u16(&mut bytes, self.ancount);
        push_u16(&mut bytes, self.nscount);
        push_u16(&mut bytes, self.arcount);
        assert(bytes@ =~= header_wire(self));
        bytes
    }

    /// Reads a header from the first twelve octets of `bytes`; what follows
    /// them is not looked at.
    pub fn decode(bytes: &[u8]) -> (r: Result<Header, DecodeError>)
        ensures
            r == parse_header(bytes@),
            r is Ok <==> bytes@.len() >= HEADER_LEN,
            r is Ok ==> r->Ok_0.wf(),
    {
        if bytes.len() < HEADER_LEN {
            return Err(DecodeError::ShortHeader);
        }
        let f1: u8 = bytes[2];
        let f2: u8 = bytes[3];
        let h = Header {
            id: read_u16(bytes, 0),
            qr: f1 & 0x80 != 0,
            opcode: (f1 >> 3) & 0x0f,
            aa: f1 & 0x04 != 0,
            tc: f1 & 0x02 != 0,
            rd: f1 & 0x01 != 0,
            ra: f2 & 0x80 != 0,
            z: (f2 >> 4) & 0x07,
            rcode: f2 & 0x0f,
            qdcount: read_u16(bytes, 4),
            ancount: read_u16(bytes, 6),
            nscount: read_u16(bytes, 8),
            arcount: read_u16(bytes, 10),
        };
        proof {
            lemma_parse_header_wf(bytes@);
        }
        Ok(h)
    }
}

/// A flag as one bit.
fn flag(b: bool) -> (r: u8)
    ensures
        r == bit(b),
{
    if b {
        1
    } else {
        0
    }
}

/// Collects the fields of a header one by one. A field that is never set has
/// its default when the header is built.
pub struct HeaderBuilder {
    id: Option<u16>,
    qr: Option<bool>,
    opcode: Option<u8>,
    aa: Option<bool>,
    tc: Option<bool>,
    rd: Option<bool>,
    ra: Option<bool>,
    z: Option<u8>,
    rcode: Option<u8>,
    qdcount: Option<u16>,
    ancount: Option<u16>,
    nscount: Option<u16>,
    arcount: Option<u16>,
}

impl View for HeaderBuilder {
    type V = Header;

    /// The header that `build` gives: each field as it was set, or its
    /// default.
    closed spec fn view(&self) -> Header {
        let d = Self::defaults();
        Header {
            id: or_default(self.id, d.id),
            qr: or_default(self.qr, d.qr),
            opcode: or_default(self.opcode, d.opcode),
            aa: or_default(self.aa, d.aa),
            tc: or_default(self.tc, d.tc),
            rd: or_default(self.rd, d.rd),
            ra: or_default(self.ra, d.ra),
            z: or_default(self.z, d.z),
            rcode: or_default(self.rcode, d.rcode),
            qdcount: or_default(self.qdcount, d.qdcount),
            ancount: or_default(self.ancount, d.ancount),
            nscount: or_default(self.nscount, d.nscount),
            arcount: or_default(self.arcount, d.arcount),
        }
    }
}

/// The value that was set, or the default.
pub open spec fn or_default<T>(set: Option<T>, default: T) -> T {
    match set {
        Some(v) => v,
        None => default,
    }
}

impl HeaderBuilder {
    /// The header that is built when no field is set: a response with the
    /// identifier 1234, every other flag clear and every count zero.
    pub open spec fn defaults() -> Header {
        Header {
            id: 1234,
            qr: true,
            opcode: 0,
            aa: false,
            tc: false,
            rd: false,
            ra: false,
            z: 0,
            rcode: 0,
            qdcount: 0,
            ancount: 0,
            nscount: 0,
            arcount: 0,
        }
    }

    /// The fields set so far fit their bits.
    #[verifier::type_invariant]
    spec fn fits(self) -> bool {
        self@.wf()
    }

    /// A builder in which no field is set yet.
    pub fn new() -> (b: HeaderBuilder)
        ensures
            b@ == Self::defaults(),
    {
        HeaderBuilder {
            id: None,
            qr: None,
            opcode: None,
            aa: None,
            tc: None,
            rd: None,
            ra: None,
            z: None,
            rcode: None,
            qdcount: None,
            ancount: None,
            nscount: None,
            arcount: None,
        }
    }

    /// Sets the identifier.
    pub fn id(self, id: u16) -> (r: Result<HeaderBuilder, BuildError>)
        ensures
            r is Ok,
            r->Ok_0@ == (Header { id, ..self@ }),
    {
        proof {
            use_type_invariant(&self);
        }
        let mut b = self;
        b.id = Some(id);
        Ok(b)
    }

    /// Sets the response flag.
    pub fn qr(self, qr: bool) -> (r: Result<HeaderBuilder, BuildError>)
        ensures
            r is Ok,
            r->Ok_0@ == (Header { qr, ..self@ }),
    {
        proof {
            use_type_invariant(&self);
        }
        let mut b = self;
        b.qr = Some(qr);
        Ok(b)
    }

    /// Sets the opcode, which must fit four bits.
    pub fn opcode(self, opcode: u8) -> (r: Result<HeaderBuilder, BuildError>)
        ensures
            opcode <= 15 ==> r is Ok && r->Ok_0@ == (Header { opcode, ..self@ }),
            opcode > 15 ==> r == Err::<HeaderBuilder, BuildError>(BuildError::FieldOutOfRange),
    {
        if opcode > 15 {
            return Err(BuildError::FieldOutOfRange);
        }
        proof {
            use_type_invariant(&self);
        }
        let mut b = self;
        b.opcode = Some(opcode);
        Ok(b)
    }

    /// Sets the authoritative-answer flag.
    pub fn aa(self, aa: bool) -> (r: Result<HeaderBuilder, BuildError>)
        ensures
            r is Ok,
            r->Ok_0@ == (Header { aa, ..self@ }),
    {
        proof {
            use_type_invariant(&self);
        }
        let mut b = self;
        b.aa = Some(aa);
        Ok(b)
    }

    /// Sets the truncation flag.
    pub fn tc(self, tc: bool) -> (r: Result<HeaderBuilder, BuildError>)
        ensures
            r is Ok,
            r->Ok_0@ == (Header { tc, ..self@ }),
    {
        proof {
            use_type_invariant(&self);
        }
        let mut b = self;
        b.tc = Some(tc);
        Ok(b)
    }

    /// Sets the recursion-desired flag.
    pub fn rd(self, rd: bool) -> (r: Result<HeaderBuilder, BuildError>)
        ensures
            r is Ok,
            r->Ok_0@ == (Header { rd, ..self@ }),
    {
        proof {
            use_type_invariant(&self);
        }
        let mut b = self;
        b.rd = Some(rd);
        Ok(b)
    }

    /// Sets the recursion-available flag.
    pub fn ra(self, ra: bool) -> (r: Result<HeaderBuilder, BuildError>)
        ensures
            r is Ok,
            r->Ok_0@ == (Header { ra, ..self@ }),
    {
        proof {
            use_type_invariant(&self);
        }
        let mut b = self;
        b.ra = Some(ra);
        Ok(b)
    }

    /// Sets the reserved bits, which must fit three bits.
    pub fn z(self, z: u8) -> (r: Result<HeaderBuilder, BuildError>)
        ensures
            z <= 7 ==> r is Ok && r->Ok_0@ == (Header { z, ..self@ }),
            z > 7 ==> r == Err::<HeaderBuilder, BuildError>(BuildError::FieldOutOfRange),
    {
        if z > 7 {
            return Err(BuildError::FieldOutOfRange);
        }
        proof {
            use_type_invariant(&self);
        }
        let mut b = self;
        b.z = Some(z);
        Ok(b)
    }

    /// Sets the response code, which must fit four bits.
    pub fn rcode(self, rcode: u8) -> (r: Result<HeaderBuilder, BuildError>)
        ensures
            rcode <= 15 ==> r is Ok && r->Ok_0@ == (Header { rcode, ..self@ }),
            rcode > 15 ==> r == Err::<HeaderBuilder, BuildError>(BuildError::FieldOutOfRange),
    {
        if rcode > 15 {
            return Err(BuildError::FieldOutOfRange);
        }
        proof {
            use_type_invariant(&self);
        }
        let mut b = self;
        b.rcode = Some(rcode);
        Ok(b)
    }

    /// Sets the number of questions.
    pub fn qdcount(self, qdcount: u16) -> (r: Result<HeaderBuilder, BuildError>)
        ensures
            r is Ok,
            r->Ok_0@ == (Header { qdcount, ..self@ }),
    {
        proof {
            use_type_invariant(&self);
        }
        let mut b = self;
        b.qdcount = Some(qdcount);
        Ok(b)
    }

    /// Sets the number of answers.
    pub fn ancount(self, ancount: u16) -> (r: Result<HeaderBuilder, BuildError>)
        ensures
            r is Ok,
            r->Ok_0@ == (Header { ancount, ..self@ }),
    {
        proof {
            use_type_invariant(&self);
        }
        let mut b = self;
        b.ancount = Some(ancount);
        Ok(b)
    }

    /// Sets the number of authority records.
    pub fn nscount(self, nscount: u16) -> (r: Result<HeaderBuilder, BuildError>)
        ensures
            r is Ok,
            r->Ok_0@ == (Header { nscount, ..self@ }),
    {
        proof {
            use_type_invariant(&self);
        }
        let mut b = self;
        b.nscount = Some(nscount);
        Ok(b)
    }

    /// Sets the number of additional records.
    pub fn arcount(self, arcount: u16) -> (r: Result<HeaderBuilder, BuildError>)
        ensures
            r is Ok,
            r->Ok_0@ == (Header { arcount, ..self@ }),
    {
        proof {
            use_type_invariant(&self);
        }
        let mut b = self;
        b.arcount = Some(arcount);
        Ok(b)
    }

    /// The header with each field as it was set, or its default. Its fields
    /// fit their bits, since the setters refuse a value that does not.
    pub fn build(self) -> (h: Header)
        ensures
            h == self@,
            h.wf(),
    {
        proof {
            use_type_invariant(&self);
        }
        Header {
            id: self.id.unwrap_or(1234),
            qr: self.qr.unwrap_or(true),
            opcode: self.opcode.unwrap_or(0),
            aa: self.aa.unwrap_or(false),
            tc: self.tc.unwrap_or(false),
            rd: self.rd.unwrap_or(false),
            ra: self.ra.unwrap_or(false),
            z: self.z.unwrap_or(0),
            rcode: self.rcode.unwrap_or(0),
            qdcount: self.qdcount.unwrap_or(0),
            ancount: self.ancount.unwrap_or(0),
            nscount: self.nscount.unwrap_or(0),
            arcount: self.arcount.unwrap_or(0),
        }
    }
}

/// The fields of a header read from the wire fit their bits.
pub proof fn lemma_parse_header_wf(buf: Seq<u8>)
    requires
        buf.len() >= HEADER_LEN,
    ensures
        parse_header(buf)->Ok_0.wf(),
{
    let f1 = buf[2];
    let f2 = buf[3];
    assert((f1 >> 3) & 0x0f <= 15) by (bit_vector);
    assert((f2 >> 4) & 0x07 <= 7) by (bit_vector);
    assert(f2 & 0x0f <= 15) by (bit_vector);
}

/// The flag octets of a header give back the flags they were packed from.
proof fn lemma_flags_unpack(h: Header)
    requires
        h.wf(),
    ensures
        (flags1(h) & 0x80 != 0) == h.qr,
        (flags1(h) >> 3) & 0x0f == h.opcode,
        (flags1(h) & 0x04 != 0) == h.aa,
        (flags1(h) & 0x02 != 0) == h.tc,
        (flags1(h) & 0x01 != 0) == h.rd,
        (flags2(h) & 0x80 != 0) == h.ra,
        (flags2(h) >> 4) & 0x07 == h.z,
        flags2(h) & 0x0f == h.rcode,
{
    let qr = bit(h.qr);
    let aa = bit(h.aa);
    let tc = bit(h.tc);
    let rd = bit(h.rd);
    let ra = bit(h.ra);
    let op = h.opcode;
    let z = h.z;
    let rc = h.rcode;
    let f1 = flags1(h);
    let f2 = flags2(h);
    assert(f1 == (qr << 7) | (op << 3) | (aa << 2) | (tc << 1) | rd);
    assert(f2 == (ra << 7) | (z << 4) | rc);
    assert({
        &&& (f1 & 0x80 != 0) == (qr == 1)
        &&& (f1 >> 3) & 0x0f == op
        &&& (f1 & 0x04 != 0) == (aa == 1)
        &&& (f1 & 0x02 != 0) == (tc == 1)
        &&& (f1 & 0x01 != 0) == (rd == 1)
    }) by (bit_vector)
        requires
            f1 == (qr << 7) | (op << 3) | (aa << 2) | (tc << 1) | rd,
            qr <= 1,
            aa <= 1,
            tc <= 1,
            rd <= 1,
            op <= 15,
    ;
    assert({
        &&& (f2 & 0x80 != 0) == (ra == 1)
        &&& (f2 >> 4) & 0x07 == z
        &&& f2 & 0x0f == rc
    }) by (bit_vector)
        requires
            f2 == (ra << 7) | (z << 4) | rc,
            ra <= 1,
            z <= 7,
            rc <= 15,
    ;
}

/// The flags read from two octets pack to those octets again.
proof fn lemma_flags_pack(buf: Seq<u8>)
    requires
        buf.len() >= HEADER_LEN,
    ensures
        flags1(parse_header(buf)->Ok_0) == buf[2],
        flags2(parse_header(buf)->Ok_0) == buf[3],
{
    let f1 = buf[2];
    let f2 = buf[3];
    let h = parse_header(buf)->Ok_0;
    let qr = bit(h.qr);
    let aa = bit(h.aa);
    let tc = bit(h.tc);
    let rd = bit(h.rd);
    let ra = bit(h.ra);
    let op = h.opcode;
    let z = h.z;
    let rc = h.rcode;
    assert(f1 == (qr << 7) | (op << 3) | (aa << 2) | (tc << 1) | rd) by (bit_vector)
        requires
            qr == (if f1 & 0x80 != 0 { 1u8 } else { 0u8 }),
            op == (f1 >> 3) & 0x0f,
            aa == (if f1 & 0x04 != 0 { 1u8 } else { 0u8 }),
            tc == (if f1 & 0x02 != 0 { 1u8 } else { 0u8 }),
            rd == (if f1 & 0x01 != 0 { 1u8 } else { 0u8 }),
    ;
    assert(f2 == (ra << 7) | (z << 4) | rc) by (bit_vector)
        requires
            ra == (if f2 & 0x80 != 0 { 1u8 } else { 0u8 }),
            z == (f2 >> 4) & 0x07,
            rc == f2 & 0x0f,
    ;
}

/// Decoding the wire form of a header whose fields fit their bits gives the
/// header back, whatever follows the twelve octets.
pub proof fn lemma_header_roundtrip(h: Header, rest: Seq<u8>)
    requires
        h.wf(),
    ensures
        header_wire(h).len() == HEADER_LEN,
        parse_header(header_wire(h) + rest) == Ok::<Header, DecodeError>(h),
{
    let w = header_wire(h);
    let buf = w + rest;
    lemma_flags_unpack(h);
    assert(w.len() == HEADER_LEN);
    assert(buf[0] == w[0] && buf[1] == w[1] && buf[2] == w[2] && buf[3] == w[3]);
    assert(buf[4] == w[4] && buf[5] == w[5] && buf[6] == w[6] && buf[7] == w[7]);
    assert(buf[8] == w[8] && buf[9] == w[9] && buf[10] == w[10] && buf[11] == w[11]);
    assert(w[2] == flags1(h) && w[3] == flags2(h));
    assert(be16(w[0], w[1]) == h.id);
    assert(be16(w[4], w[5]) == h.qdcount);
    assert(be16(w[6], w[7]) == h.ancount);
    assert(be16(w[8], w[9]) == h.nscount);
    assert(be16(w[10], w[11]) == h.arcount);
}

/// Any twelve octets are the wire form of the header that is read from them.
pub proof fn lemma_header_wire_roundtrip(buf: Seq<u8>)
    requires
        buf.len() >= HEADER_LEN,
    ensures
        header_wire(parse_header(buf)->Ok_0) == buf.subrange(0, HEADER_LEN as int),
{
    let h = parse_header(buf)->Ok_0;
    lemma_flags_pack(buf);
    lemma_be16_bytes_roundtrip(buf[0], buf[1]);
    lemma_be16_bytes_roundtrip(buf[4], buf[5]);
    lemma_be16_bytes_roundtrip(buf[6], buf[7]);
    lemma_be16_bytes_roundtrip(buf[8], buf[9]);
    lemma_be16_bytes_roundtrip(buf[10], buf[11]);
    assert(header_wire(h) =~= buf.subrange(0, HEADER_LEN as int));
}

} // verus!
