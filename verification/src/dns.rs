//! DNS wire format: reading the header and first question of a query, and
//! building the answers that the sinkhole sends back itself.

use vstd::prelude::*;
use vstd::utf8::*;
use vstd::string::*;

use crate::text::{lemma_decode_nonempty, str_from_utf8};

verus! {

/// The fixed twelve-byte header of a DNS message.
#[derive(Debug, Clone, Copy)]
pub struct Header {
    pub id: u16,
    /// Query (`true`) or response (`false`): the QR bit is 0 in a query.
    pub qr: bool,
    /// Four bits.
    pub opcode: u8,
    pub aa: bool,
    pub tc: bool,
    pub rd: bool,
    pub ra: bool,
    /// Three bits, reserved.
    pub z: u8,
    pub rcode: u8,
    pub qdcount: u16,
    pub ancount: u16,
    pub nscount: u16,
    pub arcount: u16,
}

/// The first question of a DNS message.
#[derive(Debug)]
pub struct Question {
    /// The queried name, its labels joined by `.`.
    pub qname: String,
    pub qtype: u16,
    pub qclass: u16,
}

/// A parsed DNS query: its header and its first question.
#[derive(Debug)]
pub struct Request {
    pub header: Header,
    pub question: Question,
}

/// Why a query could not be parsed.
#[derive(Debug, Clone, Copy, PartialEq, Eq, Structural)]
pub enum DnsError {
    /// A label of the queried name is not valid UTF-8.
    InvalidLabel,
}

/// The record type of an IPv4 address (`A`).
pub const QTYPE_A: u16 = 1;

/// The record type of an IPv6 address (`AAAA`).
pub const QTYPE_AAAA: u16 = 28;

/// The big-endian 16-bit integer made of two bytes.
pub open spec fn be_u16(hi: u8, lo: u8) -> u16 {
    (hi * 256 + lo) as u16
}

/// The two big-endian bytes of a 16-bit integer.
pub open spec fn u16_bytes(x: u16) -> Seq<u8> {
    seq![(x / 256) as u8, (x % 256) as u8]
}

/// The header encoded in the first twelve bytes of `b`.
pub open spec fn spec_header(b: Seq<u8>) -> Header {
    Header {
        id: be_u16(b[0], b[1]),
        qr: (b[2] >> 7u8) & 1u8 == 0,
        opcode: (b[2] >> 3u8) & 0x0Fu8,
        aa: (b[2] >> 2u8) & 1u8 != 0,
        tc: (b[2] >> 1u8) & 1u8 != 0,
        rd: b[2] & 1u8 != 0,
        ra: (b[3] >> 7u8) & 1u8 != 0,
        z: (b[3] >> 4u8) & 0x07u8,
        rcode: b[3] & 0x0Fu8,
        qdcount: be_u16(b[4], b[5]),
        ancount: be_u16(b[6], b[7]),
        nscount: be_u16(b[8], b[9]),
        arcount: be_u16(b[10], b[11]),
    }
}

/// Two names joined by a `.`, where an empty name contributes nothing.
pub open spec fn join_names(a: Seq<char>, b: Seq<char>) -> Seq<char> {
    if a.len() == 0 {
        b
    } else if b.len() == 0 {
        a
    } else {
        a + seq!['.'] + b
    }
}

/// What reading a wire-format name from some offset comes to.
pub ghost enum NameScan {
    /// A length byte or a label lies beyond the end of the message.
    Truncated,
    /// A label is not valid UTF-8 (and every label before it is in bounds).
    InvalidLabel,
    /// The name, its labels joined by `.`, ends with the zero byte at `end`.
    Complete { name: Seq<char>, end: int },
}

/// Reads the sequence of length-prefixed labels that starts at `pos`, up to
/// the zero length byte that ends it.
pub open spec fn scan_name(b: Seq<u8>, pos: int) -> NameScan
    decreases b.len() - pos,
{
    if pos < 0 || pos >= b.len() {
        NameScan::Truncated
    } else if b[pos] == 0 {
        NameScan::Complete { name: seq![], end: pos }
    } else if pos + 1 + b[pos] > b.len() {
        NameScan::Truncated
    } else if !valid_utf8(b.subrange(pos + 1, pos + 1 + b[pos])) {
        NameScan::InvalidLabel
    } else {
        let label = decode_utf8(b.subrange(pos + 1, pos + 1 + b[pos]));
        match scan_name(b, pos + 1 + b[pos]) {
            NameScan::Complete { name, end } => NameScan::Complete {
                name: join_names(label, name),
                end,
            },
            other => other,
        }
    }
}

/// What parsing a query comes to.
pub ghost enum ParseOutcome {
    /// The message ends before the header, the name or the question's type
    /// and class are complete.
    Truncated,
    /// A label of the name is not valid UTF-8.
    InvalidLabel,
    /// The header and first question.
    Parsed { header: Header, qname: Seq<char>, qtype: u16, qclass: u16 },
}

/// Parses a DNS query: the twelve-byte header, then the name at offset 12,
/// then the question's type and class after the name's zero byte.
pub open spec fn parse_outcome(b: Seq<u8>) -> ParseOutcome {
    if b.len() < 12 {
        ParseOutcome::Truncated
    } else {
        match scan_name(b, 12) {
            NameScan::Truncated => ParseOutcome::Truncated,
            NameScan::InvalidLabel => ParseOutcome::InvalidLabel,
            NameScan::Complete { name, end } => if end + 5 <= b.len() {
                ParseOutcome::Parsed {
                    header: spec_header(b),
                    qname: name,
                    qtype: be_u16(b[end + 1], b[end + 2]),
                    qclass: be_u16(b[end + 3], b[end + 4]),
                }
            } else {
                ParseOutcome::Truncated
            },
        }
    }
}

/// True when `res` is what parsing `b` gives, for a message that is not
/// truncated.
pub open spec fn parse_result_matches(b: Seq<u8>, res: Result<Request, DnsError>) -> bool {
    match parse_outcome(b) {
        ParseOutcome::Parsed { header, qname, qtype, qclass } => res matches Ok(r) && r.header
            == header && r.question.qname@ == qname && r.question.qtype == qtype
            && r.question.qclass == qclass,
        ParseOutcome::InvalidLabel => res == Err::<Request, DnsError>(DnsError::InvalidLabel),
        ParseOutcome::Truncated => false,
    }
}

/// The associativity of `join_names`.
proof fn lemma_join_assoc(a: Seq<char>, b: Seq<char>, c: Seq<char>)
    ensures
        join_names(a, join_names(b, c)) == join_names(join_names(a, b), c),
{
    assert(join_names(a, join_names(b, c)) =~= join_names(join_names(a, b), c));
}

/// The name read so far, `acc`, joined to what the rest of the scan gives.
pub open spec fn continue_scan(acc: Seq<char>, rest: NameScan) -> NameScan {
    match rest {
        NameScan::Complete { name, end } => NameScan::Complete {
            name: join_names(acc, name),
            end,
        },
        other => other,
    }
}

fn read_u16(b: &[u8], i: usize) -> (r: u16)
    requires
        i + 1 < b@.len(),
    ensures
        r == be_u16(b@[i as int], b@[i + 1]),
{
    (b[i] as u16) * 256 + (b[i + 1] as u16)
}

/// Reads the header of a message of at least twelve bytes.
fn read_header(bytes: &[u8]) -> (h: Header)
    requires
        bytes@.len() >= 12,
    ensures
        h == spec_header(bytes@),
{
    let flags = bytes[2];
    let flags2 = bytes[3];
    Header {
        id: read_u16(bytes, 0),
        qr: (flags >> 7u8) & 1u8 == 0,
        opcode: (flags >> 3u8) & 0x0Fu8,
        aa: (flags >> 2u8) & 1u8 != 0,
        tc: (flags >> 1u8) & 1u8 != 0,
        rd: flags & 1u8 != 0,
        ra: (flags2 >> 7u8) & 1u8 != 0,
        z: (flags2 >> 4u8) & 0x07u8,
        rcode: flags2 & 0x0Fu8,
        qdcount: read_u16(bytes, 4),
        ancount: read_u16(bytes, 6),
        nscount: read_u16(bytes, 8),
        arcount: read_u16(bytes, 10),
    }
}

/// Parses a DNS query, or returns `None` where the message is truncated.
///
/// `Some(Ok(..))` carries the header and first question; `Some(Err(..))` says
/// that a label of the name is not UTF-8.
pub fn try_parse_dns_request(bytes: &[u8]) -> (res: Option<Result<Request, DnsError>>)
    ensures
        res is None <==> parse_outcome(bytes@) is Truncated,
        res matches Some(r) ==> parse_result_matches(bytes@, r),
{
    let len = bytes.len();
    if len < 12 {
        return None;
    }
    let header = read_header(bytes);
    let mut qname = String::new();
    let mut pos: usize = 12;
    proof {
        assert(continue_scan(qname@, scan_name(bytes@, 12)) == scan_name(bytes@, 12)) by {
            assert(qname@ =~= Seq::<char>::empty());
            match scan_name(bytes@, 12) {
                NameScan::Complete { name, end } => {
                    assert(join_names(qname@, name) =~= name);
                },
                _ => {},
            }
        }
    }
    if pos >= len {
        return None;
    }
    let mut next: usize = bytes[pos] as usize;
    while next != 0
        invariant
            len == bytes@.len(),
            12 <= pos < len,
            next == bytes@[pos as int],
            header == spec_header(bytes@),
            len >= 12,
            continue_scan(qname@, scan_name(bytes@, pos as int)) == scan_name(bytes@, 12),
        decreases len - pos,
    {
        if next > len - pos - 1 {
            return None;
        }
        let label_bytes = &bytes[pos + 1..pos + 1 + next];
        assert(label_bytes@ == bytes@.subrange(pos + 1, pos + 1 + next));
        let label = match str_from_utf8(label_bytes) {
            Some(s) => s,
            None => {
                return Some(Err(DnsError::InvalidLabel));
            },
        };
        proof {
            lemma_decode_nonempty(label_bytes@);
            let rest = scan_name(bytes@, pos + 1 + next);
            match rest {
                NameScan::Complete { name, end } => {
                    lemma_join_assoc(qname@, label@, name);
                },
                _ => {},
            }
        }
        let ghost old_name = qname@;
        if !qname.as_str().is_empty() {
            proof {
                reveal_strlit(".");
            }
            qname.append(".");
        }
        qname.append(label);
        assert(qname@ == join_names(old_name, label@)) by {
            if old_name.len() == 0 {
                assert(qname@ =~= label@);
            } else {
                assert(qname@ =~= old_name + seq!['.'] + label@);
            }
        }
        pos = pos + next + 1;
        if pos >= len {
            return None;
        }
        next = bytes[pos] as usize;
    }
    proof {
        assert(scan_name(bytes@, pos as int) == (NameScan::Complete { name: seq![], end: pos as int }));
        assert(join_names(qname@, seq![]) =~= qname@);
    }
    if len - pos < 5 {
        return None;
    }
    let qtype = read_u16(bytes, pos + 1);
    let qclass = read_u16(bytes, pos + 3);
    Some(Ok(Request { header, question: Question { qname, qtype, qclass } }))
}

/// Parses the header and first question of a DNS query.
///
/// The message must not be truncated (see [`parse_outcome`]); the result is
/// an error exactly when a label of the queried name is not UTF-8.
pub fn parse_dns_request(bytes: &[u8]) -> (res: Result<Request, DnsError>)
    requires
        !(parse_outcome(bytes@) is Truncated),
    ensures
        parse_result_matches(bytes@, res),
{
    match try_parse_dns_request(bytes) {
        Some(r) => r,
        // A message that is not truncated always parses to `Some`.
        None => Err(DnsError::InvalidLabel),
    }
}


/// The offset that the scan for the end of the question's name stops at:
/// starting at offset 12, it skips length-prefixed labels until it meets a
/// zero byte or runs past the end of the message.
pub open spec fn name_end(b: Seq<u8>, q: int) -> int
    decreases b.len() - q,
{
    if q < 0 || q >= b.len() || b[q] == 0 {
        q
    } else if q + b[q] + 1 >= b.len() {
        q + b[q] + 1
    } else {
        name_end(b, q + b[q] + 1)
    }
}

/// True when the question section (the name, its zero byte, the type and
/// the class) of message `b` lies within `b`.
pub open spec fn question_in_bounds(b: Seq<u8>) -> bool {
    name_end(b, 12) + 5 <= b.len()
}

/// The question section of message `b`: from offset 12 to the end of the class.
pub open spec fn question_section(b: Seq<u8>) -> Seq<u8> {
    b.subrange(12, name_end(b, 12) + 5)
}

/// The twelve header bytes of an answer.
pub open spec fn answer_header(id: u16, flags: u8, rcode: u8, ancount: u16) -> Seq<u8> {
    u16_bytes(id) + seq![flags, rcode] + u16_bytes(1) + u16_bytes(ancount) + u16_bytes(0)
        + u16_bytes(0)
}

/// True for the record types the sinkhole answers with an unspecified address.
pub open spec fn answerable_qtype(qtype: u16) -> bool {
    qtype == QTYPE_A || qtype == QTYPE_AAAA
}

/// The answer record that points the queried name at the unspecified address.
pub open spec fn sinkhole_record(qtype: u16) -> Seq<u8> {
    if qtype == QTYPE_A {
        seq![0xC0u8, 0x0Cu8] + u16_bytes(QTYPE_A) + u16_bytes(1) + seq![0u8, 0u8, 0u8, 60u8]
            + u16_bytes(4) + Seq::new(4, |i: int| 0u8)
    } else if qtype == QTYPE_AAAA {
        seq![0xC0u8, 0x0Cu8] + u16_bytes(QTYPE_AAAA) + u16_bytes(1) + seq![0u8, 0u8, 0u8, 60u8]
            + u16_bytes(16) + Seq::new(16, |i: int| 0u8)
    } else {
        seq![]
    }
}

/// The response to a blocked query: the query's id, QR and AA set, RD copied,
/// the question echoed, and for `A` and `AAAA` queries one answer with the
/// unspecified address (0.0.0.0 or ::); any other type gets NXDOMAIN.
pub open spec fn blocked_answer(b: Seq<u8>, id: u16, rd: bool, qtype: u16) -> Seq<u8> {
    let flags: u8 = if rd { 0x85u8 } else { 0x84u8 };
    if answerable_qtype(qtype) {
        answer_header(id, flags, 0, 1) + question_section(b) + sinkhole_record(qtype)
    } else {
        answer_header(id, flags, 3, 0) + question_section(b)
    }
}

/// The SERVFAIL response: the query's id, QR set, RCODE 2, and the question
/// echoed when it lies within the message.
pub open spec fn servfail_answer(b: Seq<u8>, id: u16) -> Seq<u8> {
    answer_header(id, 0x80, 0x02, 0) + if question_in_bounds(b) {
        question_section(b)
    } else {
        seq![]
    }
}

/// Finds where the name of the question ends: `Some` with the offset of its
/// zero byte when the scan meets one within the message.
pub fn question_name_end(bytes: &[u8]) -> (res: Option<usize>)
    ensures
        match res {
            Some(q) => q == name_end(bytes@, 12) && 12 <= q < bytes@.len(),
            None => name_end(bytes@, 12) >= bytes@.len(),
        },
{
    let len = bytes.len();
    let mut q: usize = 12;
    while q < len && bytes[q] != 0
        invariant
            len == bytes@.len(),
            q >= 12,
            name_end(bytes@, q as int) == name_end(bytes@, 12),
        decreases len - q,
    {
        let step = bytes[q] as usize + 1;
        if step >= len - q {
            return None;
        }
        q = q + step;
    }
    if q < len {
        Some(q)
    } else {
        None
    }
}

fn push_u16(out: &mut Vec<u8>, x: u16)
    ensures
        final(out)@ == old(out)@ + u16_bytes(x),
{
    out.push((x / 256) as u8);
    out.push((x % 256) as u8);
    assert(final(out)@ =~= old(out)@ + u16_bytes(x));
}

fn push_answer_header(out: &mut Vec<u8>, id: u16, flags: u8, rcode: u8, ancount: u16)
    ensures
        final(out)@ == old(out)@ + answer_header(id, flags, rcode, ancount),
{
    push_u16(out, id);
    out.push(flags);
    out.push(rcode);
    push_u16(out, 1);
    push_u16(out, ancount);
    push_u16(out, 0);
    push_u16(out, 0);
    assert(final(out)@ =~= old(out)@ + answer_header(id, flags, rcode, ancount));
}

fn push_zeros(out: &mut Vec<u8>, n: usize)
    ensures
        final(out)@ == old(out)@ + Seq::new(n as nat, |i: int| 0u8),
{
    let ghost start = out@;
    let mut i: usize = 0;
    while i < n
        invariant
            i <= n,
            out@ == start + Seq::new(i as nat, |k: int| 0u8),
        decreases n - i,
    {
        out.push(0u8);
        i = i + 1;
        assert(out@ =~= start + Seq::new(i as nat, |k: int| 0u8));
    }
}

/// Builds the response to a blocked query from the query's bytes and its
/// parsed form.
///
/// The question section is copied from `request_bytes`, which must hold it
/// in full.
pub fn build_blocked_answer(request_bytes: &[u8], parsed: &Request) -> (resp: Vec<u8>)
    requires
        question_in_bounds(request_bytes@),
    ensures
        resp@ == blocked_answer(
            request_bytes@,
            parsed.header.id,
            parsed.header.rd,
            parsed.question.qtype,
        ),
{
    let qtype = parsed.question.qtype;
    let answerable = qtype == QTYPE_A || qtype == QTYPE_AAAA;
    let (ancount, rcode): (u16, u8) = if answerable {
        (1, 0)
    } else {
        (0, 3)
    };
    let flags: u8 = if parsed.header.rd {
        0x85
    } else {
        0x84
    };
    let mut resp: Vec<u8> = Vec::with_capacity(64);
    push_answer_header(&mut resp, parsed.header.id, flags, rcode, ancount);
    let qend = match question_name_end(request_bytes) {
        Some(q) => q,
        None => {
            return resp;
        },
    };
    let len = request_bytes.len();
    assert(qend + 5 <= len);
    let section = &request_bytes[12..qend + 5];
    let ghost before = resp@;
    resp.extend_from_slice(section);
    assert(resp@ =~= before + question_section(request_bytes@));
    if answerable {
        let ghost before = resp@;
        resp.push(0xC0u8);
        resp.push(0x0Cu8);
        if qtype == QTYPE_A {
            push_u16(&mut resp, QTYPE_A);
            push_u16(&mut resp, 1);
            resp.push(0u8);
            resp.push(0u8);
            resp.push(0u8);
            resp.push(60u8);
            push_u16(&mut resp, 4);
            push_zeros(&mut resp, 4);
        } else {
            push_u16(&mut resp, QTYPE_AAAA);
            push_u16(&mut resp, 1);
            resp.push(0u8);
            resp.push(0u8);
            resp.push(0u8);
            resp.push(60u8);
            push_u16(&mut resp, 16);
            push_zeros(&mut resp, 16);
        }
        assert(resp@ =~= before + sinkhole_record(qtype));
    }
    resp
}

/// Builds the SERVFAIL response for a query that no upstream server answered.
pub fn build_servfail(request_bytes: &[u8], id: u16) -> (resp: Vec<u8>)
    ensures
        resp@ == servfail_answer(request_bytes@, id),
{
    let mut resp: Vec<u8> = Vec::with_capacity(64);
    push_answer_header(&mut resp, id, 0x80, 0x02, 0);
    if let Some(qend) = question_name_end(request_bytes) {
        if request_bytes.len() - qend >= 5 {
            let section = &request_bytes[12..qend + 5];
            let ghost before = resp@;
            resp.extend_from_slice(section);
            assert(resp@ =~= before + question_section(request_bytes@));
        }
    }
    proof {
        assert(resp@ =~= servfail_answer(request_bytes@, id));
    }
    resp
}

/// A name that scans to completion ends where the scan for the end of the
/// question's name stops.
proof fn lemma_scan_end(b: Seq<u8>, pos: int)
    requires
        scan_name(b, pos) is Complete,
    ensures
        name_end(b, pos) == scan_name(b, pos)->end,
        pos <= name_end(b, pos) < b.len(),
    decreases b.len() - pos,
{
    if b[pos] != 0 {
        let next = pos + 1 + b[pos];
        lemma_scan_end(b, next);
    }
}

/// Every query that parses can be answered from its own bytes: its whole
/// question section lies within the message, so both the blocked answer and
/// the SERVFAIL answer echo it, and that section ends with the query's type
/// and class.
pub proof fn lemma_parsed_query_is_answerable(b: Seq<u8>)
    requires
        parse_outcome(b) is Parsed,
    ensures
        question_in_bounds(b),
        servfail_answer(b, 0).len() == 12 + question_section(b).len(),
        ({
            let q = question_section(b);
            &&& q.len() >= 5
            &&& be_u16(q[q.len() - 4], q[q.len() - 3]) == parse_outcome(b)->qtype
            &&& be_u16(q[q.len() - 2], q[q.len() - 1]) == parse_outcome(b)->qclass
        }),
{
    lemma_scan_end(b, 12);
    let end = name_end(b, 12);
    let q = question_section(b);
    assert(q.len() == end - 7);
    assert(q[q.len() - 4] == b[end + 1]);
    assert(q[q.len() - 3] == b[end + 2]);
    assert(q[q.len() - 2] == b[end + 3]);
    assert(q[q.len() - 1] == b[end + 4]);
}

/// Two messages that agree on the bytes the name scan from `pos` reads give
/// the same scan: either the scan of `b` completes before `k`, or it does
/// not run past `b` and `k` is the end of `b`.
proof fn lemma_scan_agree(b: Seq<u8>, c: Seq<u8>, pos: int, k: int)
    requires
        k <= b.len(),
        k <= c.len(),
        forall|i: int| pos <= i < k ==> b[i] == c[i],
        (scan_name(b, pos) is Complete && scan_name(b, pos)->end < k) || (!(scan_name(
            b,
            pos,
        ) is Truncated) && k == b.len()),
    ensures
        scan_name(c, pos) == scan_name(b, pos),
    decreases b.len() - pos,
{
    if scan_name(b, pos) is Complete {
        lemma_scan_end(b, pos);
    }
    if 0 <= pos < b.len() && b[pos] != 0 && pos + 1 + b[pos] <= b.len() {
        let n = b[pos] as int;
        if scan_name(b, pos + 1 + n) is Complete {
            lemma_scan_end(b, pos + 1 + n);
        }
        assert(b.subrange(pos + 1, pos + 1 + n) =~= c.subrange(pos + 1, pos + 1 + n));
        if valid_utf8(b.subrange(pos + 1, pos + 1 + n)) {
            if !(scan_name(b, pos + 1 + n) is Truncated) {
                lemma_scan_agree(b, c, pos + 1 + n, k);
            }
        }
    }
}

/// Bytes after the end of a query that is not truncated do not change what
/// it parses to.
pub proof fn lemma_trailing_bytes_ignored(b: Seq<u8>, extra: Seq<u8>)
    requires
        !(parse_outcome(b) is Truncated),
    ensures
        parse_outcome(b + extra) == parse_outcome(b),
{
    let c = b + extra;
    lemma_scan_agree(b, c, 12, b.len() as int);
    assert(spec_header(c) == spec_header(b));
    if scan_name(b, 12) is Complete {
        let end = scan_name(b, 12)->end;
        lemma_scan_end(b, 12);
        assert(end + 5 <= b.len());
        assert(c[end + 1] == b[end + 1] && c[end + 2] == b[end + 2]);
        assert(c[end + 3] == b[end + 3] && c[end + 4] == b[end + 4]);
    }
}

/// An answer that starts with a twelve-byte header and then holds the
/// question section of query `b` asks the same question as `b`.
proof fn lemma_answer_question(b: Seq<u8>, a: Seq<u8>)
    requires
        parse_outcome(b) is Parsed,
        a.len() >= 12 + question_section(b).len(),
        a.subrange(12, 12 + question_section(b).len() as int) == question_section(b),
    ensures
        parse_outcome(a) is Parsed,
        parse_outcome(a)->qname == parse_outcome(b)->qname,
        parse_outcome(a)->qtype == parse_outcome(b)->qtype,
        parse_outcome(a)->qclass == parse_outcome(b)->qclass,
        parse_outcome(a)->header == spec_header(a),
{
    lemma_scan_end(b, 12);
    let end = name_end(b, 12);
    let q = question_section(b);
    assert forall|i: int| 12 <= i < end + 5 implies b[i] == a[i] by {
        assert(a[i] == a.subrange(12, 12 + q.len() as int)[i - 12]);
    }
    lemma_scan_agree(b, a, 12, end + 5);
}

/// The blocked answer to a query that parses parses itself: as a response
/// (QR clear) with the query's id and the query's question.
pub proof fn lemma_blocked_answer_parses_back(b: Seq<u8>, id: u16, rd: bool)
    requires
        parse_outcome(b) is Parsed,
    ensures
        ({
            let a = blocked_answer(b, id, rd, parse_outcome(b)->qtype);
            &&& parse_outcome(a) is Parsed
            &&& parse_outcome(a)->header.id == id
            &&& !parse_outcome(a)->header.qr
            &&& parse_outcome(a)->qname == parse_outcome(b)->qname
            &&& parse_outcome(a)->qtype == parse_outcome(b)->qtype
            &&& parse_outcome(a)->qclass == parse_outcome(b)->qclass
        }),
{
    lemma_parsed_query_is_answerable(b);
    let qtype = parse_outcome(b)->qtype;
    let a = blocked_answer(b, id, rd, qtype);
    let q = question_section(b);
    let flags: u8 = if rd { 0x85u8 } else { 0x84u8 };
    let rcode: u8 = if answerable_qtype(qtype) { 0 } else { 3 };
    let ancount: u16 = if answerable_qtype(qtype) { 1 } else { 0 };
    assert(answer_header(id, flags, rcode, ancount).len() == 12);
    assert(a.subrange(12, 12 + q.len() as int) =~= q);
    lemma_answer_question(b, a);
    assert(a[2] == flags);
    assert((0x85u8 >> 7u8) & 1u8 == 1u8 && (0x84u8 >> 7u8) & 1u8 == 1u8) by (bit_vector);
}

/// The SERVFAIL answer to a query that parses parses itself: as a response
/// (QR clear) with the given id, RCODE 2 and the query's question.
pub proof fn lemma_servfail_parses_back(b: Seq<u8>, id: u16)
    requires
        parse_outcome(b) is Parsed,
    ensures
        ({
            let a = servfail_answer(b, id);
            &&& parse_outcome(a) is Parsed
            &&& parse_outcome(a)->header.id == id
            &&& !parse_outcome(a)->header.qr
            &&& parse_outcome(a)->header.rcode == 2
            &&& parse_outcome(a)->qname == parse_outcome(b)->qname
            &&& parse_outcome(a)->qtype == parse_outcome(b)->qtype
            &&& parse_outcome(a)->qclass == parse_outcome(b)->qclass
        }),
{
    lemma_parsed_query_is_answerable(b);
    let a = servfail_answer(b, id);
    let q = question_section(b);
    assert(answer_header(id, 0x80, 0x02, 0).len() == 12);
    assert(a.subrange(12, 12 + q.len() as int) =~= q);
    lemma_answer_question(b, a);
    assert(a[2] == 0x80u8 && a[3] == 0x02u8);
    assert((0x80u8 >> 7u8) & 1u8 == 1u8 && 0x02u8 & 0x0Fu8 == 2u8) by (bit_vector);
}

} // verus!
