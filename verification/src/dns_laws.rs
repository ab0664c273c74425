//! Laws of the DNS wire format, stated over the bytes of a message.

use vstd::prelude::*;
use vstd::utf8::*;

use crate::dns::{
    blocked_answer, join_names, lemma_parsed_query_is_answerable, parse_outcome, question_section,
    scan_name, NameScan,
};
use crate::text::lemma_decode_nonempty;

verus! {

/// The bit fields of a flags byte, read by shifts and masks, are its
/// arithmetic digits in base 2.
proof fn lemma_flag_bits(x: u8)
    ensures
        ((x >> 7u8) & 1u8 == 0) == (x < 128),
        (x >> 3u8) & 0x0Fu8 == (x / 8) % 16,
        ((x >> 2u8) & 1u8 != 0) == ((x / 4) % 2 == 1),
        ((x >> 1u8) & 1u8 != 0) == ((x / 2) % 2 == 1),
        (x & 1u8 != 0) == (x % 2 == 1),
        ((x >> 7u8) & 1u8 != 0) == (x >= 128),
        (x >> 4u8) & 0x07u8 == (x / 16) % 8,
        x & 0x0Fu8 == x % 16,
{
    assert(((x >> 7u8) & 1u8 == 0) == (x < 128)) by (bit_vector);
    assert((x >> 3u8) & 0x0Fu8 == (x / 8) % 16) by (bit_vector);
    assert(((x >> 2u8) & 1u8 != 0) == ((x / 4) % 2 == 1)) by (bit_vector);
    assert(((x >> 1u8) & 1u8 != 0) == ((x / 2) % 2 == 1)) by (bit_vector);
    assert((x & 1u8 != 0) == (x % 2 == 1)) by (bit_vector);
    assert(((x >> 7u8) & 1u8 != 0) == (x >= 128)) by (bit_vector);
    assert((x >> 4u8) & 0x07u8 == (x / 16) % 8) by (bit_vector);
    assert(x & 0x0Fu8 == x % 16) by (bit_vector);
}

/// The header of a parsed query is read from its first twelve bytes as
/// RFC 1035 lays them out: each 16-bit field big-endian, QR the top bit of
/// byte 2 and clear in a query, then OPCODE (4 bits), AA, TC and RD; RA the
/// top bit of byte 3, then Z (3 bits) and RCODE (4 bits).
pub proof fn lemma_header_layout(b: Seq<u8>)
    requires
        parse_outcome(b) is Parsed,
    ensures
        ({
            let h = parse_outcome(b)->header;
            &&& h.id == b[0] * 256 + b[1]
            &&& h.qdcount == b[4] * 256 + b[5]
            &&& h.ancount == b[6] * 256 + b[7]
            &&& h.nscount == b[8] * 256 + b[9]
            &&& h.arcount == b[10] * 256 + b[11]
            &&& h.qr == (b[2] < 128)
            &&& h.opcode == (b[2] / 8) % 16
            &&& h.aa == ((b[2] / 4) % 2 == 1)
            &&& h.tc == ((b[2] / 2) % 2 == 1)
            &&& h.rd == (b[2] % 2 == 1)
            &&& h.ra == (b[3] >= 128)
            &&& h.z == (b[3] / 16) % 8
            &&& h.rcode == b[3] % 16
        }),
{
    lemma_flag_bits(b[2]);
    lemma_flag_bits(b[3]);
}

/// The blocked answer to a parsed query: the query's question right after
/// a twelve-byte header; for type A (1) one answer record of sixteen bytes,
/// for type AAAA (28) one of twenty-eight, each of the question's type with
/// TTL 60 and an all-zero address; for every other type RCODE 3 (NXDOMAIN),
/// no answer count and nothing after the question.
pub proof fn lemma_blocked_answer_layout(b: Seq<u8>, id: u16, rd: bool)
    requires
        parse_outcome(b) is Parsed,
    ensures
        ({
            let qtype = parse_outcome(b)->qtype;
            let q = question_section(b);
            let a = blocked_answer(b, id, rd, qtype);
            let n: int = 12 + q.len() as int;
            &&& a[0] * 256 + a[1] == id
            &&& a[2] == if rd { 0x85u8 } else { 0x84u8 }
            &&& a[4] == 0 && a[5] == 1
            &&& a.subrange(12, n) == q
            &&& (qtype != 1 && qtype != 28) ==> {
                &&& a.len() == n
                &&& a[3] == 3
                &&& a[6] == 0 && a[7] == 0
            }
            &&& (qtype == 1 || qtype == 28) ==> {
                &&& a[3] == 0
                &&& a[6] == 0 && a[7] == 1
                &&& a[n] == 0xC0 && a[n + 1] == 0x0C
                &&& a[n + 2] * 256 + a[n + 3] == qtype
                &&& a[n + 4] == 0 && a[n + 5] == 1
                &&& a[n + 6] == 0 && a[n + 7] == 0 && a[n + 8] == 0 && a[n + 9] == 60
                &&& a.len() == n + 12 + (if qtype == 1 { 4int } else { 16int })
                &&& a[n + 10] * 256 + a[n + 11] == a.len() - n - 12
                &&& forall|i: int| n + 12 <= i < a.len() ==> a[i] == 0
            }
        }),
{
    lemma_parsed_query_is_answerable(b);
    let qtype = parse_outcome(b)->qtype;
    let q = question_section(b);
    let a = blocked_answer(b, id, rd, qtype);
    let n: int = 12 + q.len() as int;
    assert(a.subrange(12, n) =~= q);
}

/// The wire form of a name: each label after its length byte, then a zero
/// byte.
pub open spec fn encode_labels(labels: Seq<Seq<u8>>) -> Seq<u8>
    decreases labels.len(),
{
    if labels.len() == 0 {
        seq![0u8]
    } else {
        seq![labels[0].len() as u8] + labels[0] + encode_labels(labels.drop_first())
    }
}

/// Names written one after the other with a `.` between each two.
pub open spec fn dotted(names: Seq<Seq<char>>) -> Seq<char>
    decreases names.len(),
{
    if names.len() == 0 {
        seq![]
    } else if names.len() == 1 {
        names[0]
    } else {
        names[0] + seq!['.'] + dotted(names.drop_first())
    }
}

/// The characters of each label, decoded from UTF-8.
pub open spec fn decoded_labels(labels: Seq<Seq<u8>>) -> Seq<Seq<char>> {
    labels.map_values(|l: Seq<u8>| decode_utf8(l))
}

/// True when every label is valid UTF-8.
pub open spec fn all_valid(labels: Seq<Seq<u8>>) -> bool {
    forall|i: int| 0 <= i < labels.len() ==> valid_utf8(#[trigger] labels[i])
}

proof fn lemma_scan_encoded(msg: Seq<u8>, pos: int, labels: Seq<Seq<u8>>)
    requires
        0 <= pos,
        pos + encode_labels(labels).len() <= msg.len(),
        msg.subrange(pos, pos + encode_labels(labels).len()) == encode_labels(labels),
        forall|i: int| 0 <= i < labels.len() ==> 1 <= #[trigger] labels[i].len() <= 255,
    ensures
        all_valid(labels) ==> scan_name(msg, pos) == (NameScan::Complete {
            name: dotted(decoded_labels(labels)),
            end: pos + encode_labels(labels).len() - 1,
        }),
        !all_valid(labels) ==> scan_name(msg, pos) is InvalidLabel,
    decreases labels.len(),
{
    let enc = encode_labels(labels);
    assert(msg[pos] == enc[0]) by {
        assert(msg.subrange(pos, pos + enc.len())[0] == msg[pos]);
    }
    if labels.len() == 0 {
        assert(decoded_labels(labels) =~= Seq::<Seq<char>>::empty());
    } else {
        let l0 = labels[0];
        let n = l0.len() as int;
        let rest = labels.drop_first();
        let enc_rest = encode_labels(rest);
        assert(1 <= l0.len() <= 255);
        assert(enc =~= seq![l0.len() as u8] + l0 + enc_rest);
        assert(msg[pos] == n);
        assert(msg.subrange(pos + 1, pos + 1 + n) =~= l0) by {
            assert forall|i: int| 0 <= i < n implies msg.subrange(pos + 1, pos + 1 + n)[i]
                == l0[i] by {
                assert(msg.subrange(pos, pos + enc.len())[1 + i] == enc[1 + i]);
            }
        }
        assert(msg.subrange(pos + 1 + n, pos + 1 + n + enc_rest.len()) =~= enc_rest) by {
            assert forall|i: int| 0 <= i < enc_rest.len() implies msg.subrange(
                pos + 1 + n,
                pos + 1 + n + enc_rest.len(),
            )[i] == enc_rest[i] by {
                assert(msg.subrange(pos, pos + enc.len())[1 + n + i] == enc[1 + n + i]);
            }
        }
        assert forall|i: int| 0 <= i < rest.len() implies 1 <= #[trigger] rest[i].len() <= 255 by {
            assert(rest[i] == labels[i + 1]);
        }
        lemma_scan_encoded(msg, pos + 1 + n, rest);
        assert(all_valid(labels) == (valid_utf8(l0) && all_valid(rest))) by {
            if valid_utf8(l0) && all_valid(rest) {
                assert forall|i: int| 0 <= i < labels.len() implies valid_utf8(
                    #[trigger] labels[i],
                ) by {
                    if i > 0 {
                        assert(labels[i] == rest[i - 1]);
                    }
                }
            }
            if all_valid(labels) {
                assert(valid_utf8(labels[0]));
                assert forall|i: int| 0 <= i < rest.len() implies valid_utf8(
                    #[trigger] rest[i],
                ) by {
                    assert(rest[i] == labels[i + 1]);
                }
            }
        }
        if all_valid(labels) {
            let d = decoded_labels(labels);
            let dr = decoded_labels(rest);
            assert(dr =~= d.drop_first());
            lemma_decode_nonempty(l0);
            assert(d[0] == decode_utf8(l0));
            if rest.len() == 0 {
                assert(join_names(decode_utf8(l0), dotted(dr)) =~= dotted(d));
            } else {
                lemma_decode_nonempty(rest[0]);
                assert(dotted(dr).len() > 0) by {
                    if dr.len() == 1 {
                    } else {
                        assert(dotted(dr) =~= dr[0] + seq!['.'] + dotted(dr.drop_first()));
                    }
                }
                assert(join_names(decode_utf8(l0), dotted(dr)) =~= dotted(d));
            }
        }
    }
}

/// A query whose name is written as length-prefixed labels (each of 1 to 255
/// bytes) parses, whatever the labels' lengths, exactly when every label is
/// valid UTF-8: its name is then the labels decoded and joined by `.`, and its
/// type and class are the big-endian values of the four bytes after the name.
/// It fails with an invalid label exactly when some label is not valid UTF-8.
pub proof fn lemma_parse_encoded_query(
    header: Seq<u8>,
    labels: Seq<Seq<u8>>,
    tail: Seq<u8>,
    extra: Seq<u8>,
)
    requires
        header.len() == 12,
        tail.len() == 4,
        forall|i: int| 0 <= i < labels.len() ==> 1 <= #[trigger] labels[i].len() <= 255,
    ensures
        ({
            let msg = header + encode_labels(labels) + tail + extra;
            &&& parse_outcome(msg) is InvalidLabel <==> !all_valid(labels)
            &&& all_valid(labels) ==> {
                &&& parse_outcome(msg) is Parsed
                &&& parse_outcome(msg)->qname == dotted(decoded_labels(labels))
                &&& parse_outcome(msg)->qtype == tail[0] * 256 + tail[1]
                &&& parse_outcome(msg)->qclass == tail[2] * 256 + tail[3]
            }
        }),
{
    let enc = encode_labels(labels);
    let msg = header + enc + tail + extra;
    assert(msg.subrange(12, 12 + enc.len() as int) =~= enc);
    lemma_scan_encoded(msg, 12, labels);
    let end = 12 + enc.len() - 1;
    assert(msg[end + 1] == tail[0] && msg[end + 2] == tail[1]);
    assert(msg[end + 3] == tail[2] && msg[end + 4] == tail[3]);
}

} // verus!
