//! Domain names as label sequences.
//!
//! In memory a name is its uncompressed wire form without the terminating
//! zero octet: each label is a length octet from 1 to 63 followed by that many
//! octets. On the wire a name ends with a zero octet, or early with a
//! compression pointer: two octets whose top two bits are set and whose other
//! fourteen bits give the offset in the message at which the name goes on.

use super::error::{BuildError, DecodeError};
use super::wire::push_range;
use vstd::prelude::*;
use vstd::utf8::encode_utf8;

verus! {

/// The most octets a label can have.
pub const MAX_LABEL_LEN: usize = 63;

/// The most octets a name can have in memory: 255 on the wire, less the
/// terminator.
pub const MAX_NAME_LEN: usize = 254;

/// The most compression pointers that are followed while decoding one name.
pub const MAX_POINTER_HOPS: usize = 128;

/// The octet that separates the labels of a domain string.
pub const DOT: u8 = 0x2e;

/// `s` is a concatenation of labels, each a length octet from 1 to 63 and
/// that many octets.
pub open spec fn is_label_seq(s: Seq<u8>) -> bool
    decreases s.len(),
{
    s.len() == 0 || {
        &&& 1 <= s[0] <= MAX_LABEL_LEN
        &&& 1 + s[0] <= s.len()
        &&& is_label_seq(s.subrange(1 + s[0] as int, s.len() as int))
    }
}

/// `s` is a name as it is held in memory.
pub open spec fn valid_name(s: Seq<u8>) -> bool {
    s.len() <= MAX_NAME_LEN && is_label_seq(s)
}

/// The wire form of the in-memory name `name`: the labels and the terminator.
pub open spec fn name_wire(name: Seq<u8>) -> Seq<u8> {
    name + seq![0u8]
}

/// The offset that the pointer with the octets `b0 >= 192` and `b1` names:
/// the low six bits of `b0`, then `b1`.
pub open spec fn pointer_target(b0: u8, b1: u8) -> int {
    (b0 - 192) * 256 + b1
}

/// The rest of the decoding of one name.
///
/// The name began at `start`, the next octet to look at is at `pos`, `out`
/// holds the labels collected so far and `hops` pointers were followed.
/// `cursor` is `None` until the first pointer, and from then on the offset
/// just behind that pointer. The result is the name with the offset at which
/// the enclosing record goes on: behind the terminator if no pointer was met,
/// else behind the first pointer.
pub open spec fn walk_name(
    buf: Seq<u8>,
    start: int,
    pos: int,
    cursor: Option<int>,
    hops: nat,
    out: Seq<u8>,
) -> Result<(Seq<u8>, int), DecodeError>
    decreases MAX_POINTER_HOPS - hops, MAX_NAME_LEN - out.len(),
{
    if pos < 0 || pos >= buf.len() {
        Err(DecodeError::ShortBuffer)
    } else if buf[pos] == 0 {
        Ok(
            (
                out,
                match cursor {
                    Some(c) => c,
                    None => pos + 1,
                },
            ),
        )
    } else if buf[pos] < 64 {
        if pos + 1 + buf[pos] > buf.len() {
            Err(DecodeError::ShortBuffer)
        } else if out.len() + 1 + buf[pos] > MAX_NAME_LEN {
            Err(DecodeError::NameTooLong)
        } else {
            walk_name(
                buf,
                start,
                pos + 1 + buf[pos],
                cursor,
                hops,
                out + buf.subrange(pos, pos + 1 + buf[pos]),
            )
        }
    } else if buf[pos] >= 192 {
        if pos + 1 >= buf.len() {
            Err(DecodeError::ShortBuffer)
        } else if pointer_target(buf[pos], buf[pos + 1]) >= start {
            Err(DecodeError::BadPointer)
        } else if hops >= MAX_POINTER_HOPS {
            Err(DecodeError::PointerLoop)
        } else {
            walk_name(
                buf,
                start,
                pointer_target(buf[pos], buf[pos + 1]),
                Some(
                    match cursor {
                        Some(c) => c,
                        None => pos + 2,
                    },
                ),
                hops + 1,
                out,
            )
        }
    } else {
        Err(DecodeError::BadLabelTag)
    }
}

/// The name that begins at offset `start` of the message `buf`, and the offset
/// at which the record that holds it goes on; or why there is no such name.
pub open spec fn parse_name(buf: Seq<u8>, start: int) -> Result<(Seq<u8>, int), DecodeError> {
    walk_name(buf, start, start, None, 0, Seq::empty())
}

/// The name at offset `pos` of `buf` is written without a compression
/// pointer: labels, one behind the other, up to a zero octet.
pub open spec fn name_is_plain(buf: Seq<u8>, pos: int) -> bool
    decreases buf.len() - pos,
{
    if pos < 0 || pos >= buf.len() {
        false
    } else if buf[pos] == 0 {
        true
    } else if buf[pos] < 64 && pos + 1 + buf[pos] < buf.len() {
        name_is_plain(buf, pos + 1 + buf[pos])
    } else {
        false
    }
}

/// Expands the name that begins at offset `start` of the message `buf`.
///
/// Returns the name as it is held in memory, and the offset at which the
/// record that holds the name goes on: behind the terminator, or behind the
/// first compression pointer if there is one. The whole message is needed,
/// since a pointer names an offset in it.
pub fn decode_name(buf: &[u8], start: usize) -> (r: Result<(Vec<u8>, usize), DecodeError>)
    ensures
        match r {
            Ok((name, end)) => {
                &&& parse_name(buf@, start as int) == Ok::<(Seq<u8>, int), DecodeError>(
                    (name@, end as int),
                )
                &&& valid_name(name@)
                &&& start < end <= buf@.len()
            },
            Err(e) => parse_name(buf@, start as int) == Err::<(Seq<u8>, int), DecodeError>(e),
        },
{
    let mut pos: usize = start;
    let mut cursor: Option<usize> = None;
    let mut hops: usize = 0;
    let mut out: Vec<u8> = Vec::new();
    loop
        invariant
            walk_name(buf@, start as int, pos as int, cursor_offset(cursor), hops as nat, out@)
                == parse_name(buf@, start as int),
            hops <= MAX_POINTER_HOPS,
            out@.len() <= MAX_NAME_LEN,
        decreases MAX_POINTER_HOPS - hops, MAX_NAME_LEN - out@.len(),
    {
        if pos >= buf.len() {
            return Err(DecodeError::ShortBuffer);
        }
        let b: u8 = buf[pos];
        let tag: u8 = b >> 6;
        let low: u8 = b & 0x3f;
        proof {
            assert(tag == 0 <==> b < 64) by (bit_vector)
                requires
                    tag == b >> 6,
            ;
            assert(tag == 3 <==> b >= 192) by (bit_vector)
                requires
                    tag == b >> 6,
            ;
            assert(b < 64 ==> low == b) by (bit_vector)
                requires
                    low == b & 0x3f,
            ;
            assert(b >= 192 ==> low == b - 192) by (bit_vector)
                requires
                    low == b & 0x3f,
            ;
        }
        if tag == 0 {
            if low == 0 {
                let end: usize = match cursor {
                    Some(c) => c,
                    None => pos + 1,
                };
                proof {
                    lemma_parse_name_valid(buf@, start as int);
                }
                return Ok((out, end));
            }
            let len: usize = low as usize;
            if len > buf.len() - pos - 1 {
                return Err(DecodeError::ShortBuffer);
            }
            if out.len() + 1 + len > MAX_NAME_LEN {
                return Err(DecodeError::NameTooLong);
            }
            push_range(&mut out, buf, pos, pos + 1 + len);
            pos = pos + 1 + len;
        } else if tag == 3 {
            if pos + 1 >= buf.len() {
                return Err(DecodeError::ShortBuffer);
            }
            let b1: u8 = buf[pos + 1];
            let target: u16 = ((low as u16) << 8) | (b1 as u16);
            proof {
                assert(target == low * 256 + b1) by (bit_vector)
                    requires
                        low < 64,
                        target == ((low as u16) << 8) | (b1 as u16),
                ;
            }
            if target as usize >= start {
                return Err(DecodeError::BadPointer);
            }
            if hops >= MAX_POINTER_HOPS {
                return Err(DecodeError::PointerLoop);
            }
            if cursor.is_none() {
                cursor = Some(pos + 2);
            }
            hops = hops + 1;
            pos = target as usize;
        } else {
            return Err(DecodeError::BadLabelTag);
        }
    }
}

/// The offset behind the first pointer, if one was met, as a number.
pub open spec fn cursor_offset(cursor: Option<usize>) -> Option<int> {
    match cursor {
        Some(c) => Some(c as int),
        None => None,
    }
}

/// The number of octets of `d` before its first dot.
pub open spec fn label_len(d: Seq<u8>) -> nat
    decreases d.len(),
{
    if d.len() == 0 || d[0] == DOT {
        0
    } else {
        1 + label_len(d.drop_first())
    }
}

/// The labels of the domain string `d`, which are its parts between dots, each
/// behind its length octet.
pub open spec fn labels_wire(d: Seq<u8>) -> Result<Seq<u8>, BuildError>
    decreases d.len(),
{
    let k = label_len(d);
    if k == 0 {
        Err(BuildError::EmptyLabel)
    } else if k > MAX_LABEL_LEN {
        Err(BuildError::LabelTooLong)
    } else if k >= d.len() {
        Ok(seq![k as u8] + d)
    } else {
        append_labels(
            seq![k as u8] + d.subrange(0, k as int),
            labels_wire(d.subrange(k as int + 1, d.len() as int)),
        )
    }
}

/// `head` before the labels in `rest`, if there are any.
pub open spec fn append_labels(
    head: Seq<u8>,
    rest: Result<Seq<u8>, BuildError>,
) -> Result<Seq<u8>, BuildError> {
    match rest {
        Ok(tail) => Ok(head + tail),
        Err(e) => Err(e),
    }
}

/// The in-memory name for the octets `d` of a domain string such as
/// `example.com`, or why it has none.
///
/// The first label that is empty or too long decides the error; the length
/// of the whole name is looked at only where every label is in order.
pub open spec fn domain_name(d: Seq<u8>) -> Result<Seq<u8>, BuildError> {
    match labels_wire(d) {
        Ok(w) => if w.len() > MAX_NAME_LEN {
            Err(BuildError::NameTooLong)
        } else {
            Ok(w)
        },
        Err(e) => Err(e),
    }
}

/// The in-memory name for a domain string, which is the name for its UTF-8
/// octets.
pub open spec fn domain_str_name(domain: Seq<char>) -> Result<Seq<u8>, BuildError> {
    domain_name(encode_utf8(domain))
}

/// Encodes the octets of a domain string such as `example.com` as a name.
///
/// Each part between dots becomes a label. A part with no octets or with more
/// than 63 is refused, and so is a string whose name would pass 254 octets.
pub fn encode_name(domain: &[u8]) -> (r: Result<Vec<u8>, BuildError>)
    ensures
        match r {
            Ok(name) => domain_name(domain@) == Ok::<Seq<u8>, BuildError>(name@) && valid_name(
                name@,
            ),
            Err(e) => domain_name(domain@) == Err::<Seq<u8>, BuildError>(e),
        },
{
    let n: usize = domain.len();
    let mut out: Vec<u8> = Vec::new();
    let mut start: usize = 0;
    proof {
        assert(domain@.subrange(0, n as int) =~= domain@);
        let all = labels_wire(domain@);
        if all is Ok {
            assert(out@ + all->Ok_0 =~= all->Ok_0);
        }
    }
    loop
        invariant_except_break
            start <= n,
            out@.len() == start,
            labels_wire(domain@) == append_labels(
                out@,
                labels_wire(domain@.subrange(start as int, n as int)),
            ),
        invariant
            n == domain@.len(),
        ensures
            labels_wire(domain@) == Ok::<Seq<u8>, BuildError>(out@),
        decreases n - start,
    {
        let ghost rest = domain@.subrange(start as int, n as int);
        let mut end: usize = start;
        while end < n && domain[end] != DOT
            invariant
                start <= end <= n,
                n == domain@.len(),
                forall|i: int| start <= i < end ==> domain@[i] != DOT,
            decreases n - end,
        {
            end = end + 1;
        }
        let k: usize = end - start;
        proof {
            assert forall|i: int| 0 <= i < k implies rest[i] != DOT by {
                assert(rest[i] == domain@[start + i]);
            }
            lemma_label_len_is(rest, k as int);
        }
        if k == 0 {
            return Err(BuildError::EmptyLabel);
        }
        if k > MAX_LABEL_LEN {
            return Err(BuildError::LabelTooLong);
        }
        let ghost before = out@;
        out.push(k as u8);
        push_range(&mut out, domain, start, end);
        proof {
            let head = seq![k as u8] + rest.subrange(0, k as int);
            assert(rest.subrange(0, k as int) =~= domain@.subrange(start as int, end as int));
            assert(out@ =~= before + head);
            if end == n {
                assert(rest.subrange(0, k as int) =~= rest);
            } else {
                assert(rest.subrange(k + 1, rest.len() as int) =~= domain@.subrange(
                    end + 1,
                    n as int,
                ));
                let tail = labels_wire(domain@.subrange(end + 1, n as int));
                if tail is Ok {
                    assert(before + (head + tail->Ok_0) =~= (before + head) + tail->Ok_0);
                }
            }
        }
        if end == n {
            break ;
        }
        start = end + 1;
    }
    proof {
        lemma_labels_wire_valid(domain@);
    }
    if out.len() > MAX_NAME_LEN {
        return Err(BuildError::NameTooLong);
    }
    Ok(out)
}

/// Encodes a domain string such as `example.com` as a name.
pub fn encode_domain(domain: &str) -> (r: Result<Vec<u8>, BuildError>)
    ensures
        match r {
            Ok(name) => domain_str_name(domain@) == Ok::<Seq<u8>, BuildError>(name@)
                && valid_name(name@),
            Err(e) => domain_str_name(domain@) == Err::<Seq<u8>, BuildError>(e),
        },
{
    encode_name(domain.as_bytes())
}

/// The name `codecrafters.io`, which a record has when none is set.
pub open spec fn default_name() -> Seq<u8> {
    seq![12u8, 99, 111, 100, 101, 99, 114, 97, 102, 116, 101, 114, 115, 2, 105, 111]
}

/// The octets of the domain string `codecrafters.io`.
pub open spec fn default_domain() -> Seq<u8> {
    seq![99u8, 111, 100, 101, 99, 114, 97, 102, 116, 101, 114, 115, 46, 105, 111]
}

/// A vector with the name `codecrafters.io`.
pub fn default_name_bytes() -> (name: Vec<u8>)
    ensures
        name@ == default_name(),
{
    let mut name: Vec<u8> = Vec::new();
    name.push(12);
    name.push(99);
    name.push(111);
    name.push(100);
    name.push(101);
    name.push(99);
    name.push(114);
    name.push(97);
    name.push(102);
    name.push(116);
    name.push(101);
    name.push(114);
    name.push(115);
    name.push(2);
    name.push(105);
    name.push(111);
    assert(name@ =~= default_name());
    name
}

/// A label sequence stays one when a label is put behind it.
pub proof fn lemma_label_seq_push(a: Seq<u8>, label: Seq<u8>)
    requires
        is_label_seq(a),
        label.len() >= 1,
        1 <= label[0] <= MAX_LABEL_LEN,
        label.len() == 1 + label[0],
    ensures
        is_label_seq(a + label),
    decreases a.len(),
{
    let s = a + label;
    if a.len() == 0 {
        assert(s =~= label);
        assert(is_label_seq(label.subrange(1 + label[0] as int, label.len() as int)));
    } else {
        let k = 1 + a[0] as int;
        lemma_label_seq_push(a.subrange(k, a.len() as int), label);
        assert(s.subrange(k, s.len() as int) =~= a.subrange(k, a.len() as int) + label);
    }
}

/// Two label sequences in a row are a label sequence.
pub proof fn lemma_label_seq_concat(a: Seq<u8>, b: Seq<u8>)
    requires
        is_label_seq(a),
        is_label_seq(b),
    ensures
        is_label_seq(a + b),
    decreases a.len(),
{
    let s = a + b;
    if a.len() == 0 {
        assert(s =~= b);
    } else {
        let k = 1 + a[0] as int;
        lemma_label_seq_concat(a.subrange(k, a.len() as int), b);
        assert(s.subrange(k, s.len() as int) =~= a.subrange(k, a.len() as int) + b);
    }
}

/// What decoding gives is a name as it is held in memory, and the record goes
/// on inside the buffer, behind the offset at which the name began.
proof fn lemma_walk_valid(
    buf: Seq<u8>,
    start: int,
    pos: int,
    cursor: Option<int>,
    hops: nat,
    out: Seq<u8>,
)
    requires
        valid_name(out),
        walk_name(buf, start, pos, cursor, hops, out) is Ok,
        match cursor {
            Some(c) => start < c <= buf.len(),
            None => start <= pos,
        },
    ensures
        valid_name(walk_name(buf, start, pos, cursor, hops, out)->Ok_0.0),
        start < walk_name(buf, start, pos, cursor, hops, out)->Ok_0.1 <= buf.len(),
    decreases MAX_POINTER_HOPS - hops, MAX_NAME_LEN - out.len(),
{
    let b = buf[pos];
    if b == 0 {
    } else if b < 64 {
        let label = buf.subrange(pos, pos + 1 + b);
        lemma_label_seq_push(out, label);
        lemma_walk_valid(buf, start, pos + 1 + b, cursor, hops, out + label);
    } else {
        let next = Some(
            match cursor {
                Some(c) => c,
                None => pos + 2,
            },
        );
        lemma_walk_valid(buf, start, pointer_target(b, buf[pos + 1]), next, hops + 1, out);
    }
}

/// A decoded name is a name as it is held in memory: labels of 1 to 63 octets,
/// at most 254 octets in all. The record that holds it goes on inside the
/// buffer, behind the offset at which the name began.
pub proof fn lemma_parse_name_valid(buf: Seq<u8>, start: int)
    requires
        parse_name(buf, start) is Ok,
    ensures
        valid_name(parse_name(buf, start)->Ok_0.0),
        start < parse_name(buf, start)->Ok_0.1 <= buf.len(),
{
    lemma_walk_valid(buf, start, start, None, 0, Seq::empty());
}

/// Decoding goes through labels that stand in the buffer without a pointer.
proof fn lemma_walk_plain(
    buf: Seq<u8>,
    start: int,
    pos: int,
    hops: nat,
    out: Seq<u8>,
    rest: Seq<u8>,
)
    requires
        is_label_seq(rest),
        out.len() + rest.len() <= MAX_NAME_LEN,
        0 <= pos,
        pos + rest.len() < buf.len(),
        buf.subrange(pos, pos + rest.len()) == rest,
        buf[pos + rest.len()] == 0,
    ensures
        walk_name(buf, start, pos, None, hops, out) == Ok::<(Seq<u8>, int), DecodeError>(
            (out + rest, pos + rest.len() + 1),
        ),
    decreases rest.len(),
{
    if rest.len() == 0 {
        assert(out + rest =~= out);
    } else {
        assert(buf[pos] == rest[0]);
        let k = 1 + rest[0] as int;
        let label = buf.subrange(pos, pos + k);
        let tail = rest.subrange(k, rest.len() as int);
        assert(label =~= rest.subrange(0, k));
        assert(buf.subrange(pos + k, pos + k + tail.len()) =~= tail);
        lemma_walk_plain(buf, start, pos + k, hops, out + label, tail);
        assert((out + label) + tail =~= out + rest);
    }
}

/// Labels that stand in the buffer before a zero octet are a name that is
/// written without a compression pointer.
proof fn lemma_labels_plain(buf: Seq<u8>, pos: int, rest: Seq<u8>)
    requires
        is_label_seq(rest),
        0 <= pos,
        pos + rest.len() < buf.len(),
        buf.subrange(pos, pos + rest.len()) == rest,
        buf[pos + rest.len()] == 0,
    ensures
        name_is_plain(buf, pos),
    decreases rest.len(),
{
    if rest.len() > 0 {
        assert(buf[pos] == rest[0]);
        let k = 1 + rest[0] as int;
        let tail = rest.subrange(k, rest.len() as int);
        assert(buf.subrange(pos + k, pos + k + tail.len()) =~= tail);
        lemma_labels_plain(buf, pos + k, tail);
    }
}

/// A name that stands in full at `pos`, with its terminator, is written
/// without a compression pointer and is decoded to itself, and the record
/// goes on behind the terminator.
pub proof fn lemma_name_roundtrip(name: Seq<u8>, buf: Seq<u8>, pos: int)
    requires
        valid_name(name),
        0 <= pos,
        pos + name.len() < buf.len(),
        buf.subrange(pos, pos + name.len() + 1) == name_wire(name),
    ensures
        parse_name(buf, pos) == Ok::<(Seq<u8>, int), DecodeError>((name, pos + name.len() + 1)),
        name_is_plain(buf, pos),
{
    let w = buf.subrange(pos, pos + name.len() + 1);
    assert(buf[pos + name.len()] == w[name.len() as int]);
    assert(buf.subrange(pos, pos + name.len()) =~= name) by {
        assert forall|i: int| 0 <= i < name.len() implies buf[pos + i] == name[i] by {
            assert(buf[pos + i] == w[i]);
        }
    }
    lemma_walk_plain(buf, pos, pos, 0, Seq::empty(), name);
    lemma_labels_plain(buf, pos, name);
    assert(Seq::<u8>::empty() + name =~= name);
}

/// Decoding labels that stand in the buffer without a pointer collects the
/// octets that it passes.
proof fn lemma_walk_plain_bytes(buf: Seq<u8>, start: int, pos: int, hops: nat, out: Seq<u8>)
    requires
        name_is_plain(buf, pos),
        walk_name(buf, start, pos, None, hops, out) is Ok,
    ensures
        ({
            let (name, end) = walk_name(buf, start, pos, None, hops, out)->Ok_0;
            &&& pos < end <= buf.len()
            &&& name + seq![0u8] == out + buf.subrange(pos, end)
        }),
    decreases buf.len() - pos,
{
    let b = buf[pos];
    if b == 0 {
        assert(buf.subrange(pos, pos + 1) =~= seq![0u8]);
    } else {
        let next = pos + 1 + b;
        let label = buf.subrange(pos, next);
        lemma_walk_plain_bytes(buf, start, next, hops, out + label);
        let (name, end) = walk_name(buf, start, pos, None, hops, out)->Ok_0;
        assert((out + label) + buf.subrange(next, end) =~= out + buf.subrange(pos, end));
    }
}

/// The octets of a name that is written without a compression pointer are
/// the wire form of the name that is decoded from them, and the record goes
/// on behind them.
pub proof fn lemma_plain_name_wire(buf: Seq<u8>, pos: int)
    requires
        name_is_plain(buf, pos),
        parse_name(buf, pos) is Ok,
    ensures
        ({
            let (name, end) = parse_name(buf, pos)->Ok_0;
            &&& end == pos + name.len() + 1
            &&& end <= buf.len()
            &&& buf.subrange(pos, end) == name_wire(name)
        }),
{
    lemma_walk_plain_bytes(buf, pos, pos, 0, Seq::empty());
    let (name, end) = parse_name(buf, pos)->Ok_0;
    assert(Seq::<u8>::empty() + buf.subrange(pos, end) =~= buf.subrange(pos, end));
    assert(name_wire(name).len() == name.len() + 1);
}

/// The first label of a domain string is no longer than the string.
pub proof fn lemma_label_len_bound(d: Seq<u8>)
    ensures
        label_len(d) <= d.len(),
        label_len(d) < d.len() ==> d[label_len(d) as int] == DOT,
        forall|i: int| 0 <= i < label_len(d) ==> d[i] != DOT,
    decreases d.len(),
{
    if d.len() == 0 || d[0] == DOT {
    } else {
        let t = d.drop_first();
        lemma_label_len_bound(t);
        assert forall|i: int| 0 <= i < label_len(d) implies d[i] != DOT by {
            if i > 0 {
                assert(d[i] == t[i - 1]);
            }
        }
        if label_len(d) < d.len() {
            assert(d[label_len(d) as int] == t[label_len(t) as int]);
        }
    }
}

/// A dot-free stretch of `k` octets is the whole first label if a dot or the
/// end of the string follows it.
proof fn lemma_label_len_is(d: Seq<u8>, k: int)
    requires
        0 <= k <= d.len(),
        forall|i: int| 0 <= i < k ==> d[i] != DOT,
        k < d.len() ==> d[k] == DOT,
    ensures
        label_len(d) == k,
    decreases d.len(),
{
    if k == 0 {
    } else {
        let t = d.drop_first();
        assert forall|i: int| 0 <= i < k - 1 implies t[i] != DOT by {
            assert(t[i] == d[i + 1]);
        }
        lemma_label_len_is(t, k - 1);
    }
}

/// The labels of a domain string are a label sequence, one octet longer than
/// the string.
pub proof fn lemma_labels_wire_valid(d: Seq<u8>)
    requires
        labels_wire(d) is Ok,
    ensures
        is_label_seq(labels_wire(d)->Ok_0),
        labels_wire(d)->Ok_0.len() == d.len() + 1,
    decreases d.len(),
{
    let k = label_len(d);
    lemma_label_len_bound(d);
    if k >= d.len() {
        lemma_label_seq_push(Seq::empty(), seq![k as u8] + d);
        assert(Seq::<u8>::empty() + (seq![k as u8] + d) =~= seq![k as u8] + d);
    } else {
        let head = seq![k as u8] + d.subrange(0, k as int);
        let tail = d.subrange(k as int + 1, d.len() as int);
        lemma_labels_wire_valid(tail);
        lemma_label_seq_push(Seq::empty(), head);
        assert(Seq::<u8>::empty() + head =~= head);
        lemma_label_seq_concat(head, labels_wire(tail)->Ok_0);
    }
}

/// The name for a domain string is a name as it is held in memory, one
/// octet longer than the string.
pub proof fn lemma_domain_name_valid(d: Seq<u8>)
    requires
        domain_name(d) is Ok,
    ensures
        valid_name(domain_name(d)->Ok_0),
        domain_name(d)->Ok_0.len() == d.len() + 1,
{
    lemma_labels_wire_valid(d);
}

/// The default name is the name for the domain string `codecrafters.io`, and
/// so a name as it is held in memory.
pub proof fn lemma_default_name()
    ensures
        domain_name(default_domain()) == Ok::<Seq<u8>, BuildError>(default_name()),
        valid_name(default_name()),
{
    let d = default_domain();
    let tail = d.subrange(13, 15);
    lemma_label_len_is(d, 12);
    lemma_label_len_is(tail, 2);
    assert(labels_wire(tail) == Ok::<Seq<u8>, BuildError>(seq![2u8] + tail));
    assert((seq![12u8] + d.subrange(0, 12)) + (seq![2u8] + tail) =~= default_name());
    lemma_domain_name_valid(d);
}

} // verus!
