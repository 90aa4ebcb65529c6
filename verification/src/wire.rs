//! The DNS message layout that the server reads and writes: the question name,
//! and the header and answer record of a reply.
use vstd::prelude::*;
use crate::text::{ascii_lower, lower_all, ascii_lowercase};

verus! {

/// The longest name, in bytes, that the server reads from a question.
pub const MAX_NAME_LEN: usize = 253;

/// A name with one more label: the label in lower case, after a dot unless the
/// name is still empty.
pub open spec fn append_label(name: Seq<u8>, label: Seq<u8>) -> Seq<u8> {
    if name.len() == 0 {
        lower_all(label)
    } else {
        name.push(46u8) + lower_all(label)
    }
}

/// Reads the labels of a name that starts at `pos`, after the part `name`
/// already read: each label is a length byte of at most 63 and that many bytes,
/// a zero byte ends the name, and the dotted name may not grow past
/// `MAX_NAME_LEN` bytes. Gives the name and the position after its zero byte.
pub open spec fn walk_labels(p: Seq<u8>, pos: int, name: Seq<u8>) -> Option<(Seq<u8>, int)>
    decreases p.len() - pos,
{
    if pos < 0 || pos >= p.len() {
        None
    } else if p[pos] == 0 {
        Some((name, pos + 1))
    } else if p[pos] > 63 || pos + 1 + p[pos] > p.len() {
        None
    } else {
        let next = append_label(name, p.subrange(pos + 1, pos + 1 + p[pos]));
        if next.len() > MAX_NAME_LEN {
            None
        } else {
            walk_labels(p, pos + 1 + p[pos], next)
        }
    }
}

/// The name of the question that follows the 12-byte header, and the position
/// after it.
pub open spec fn question_name(p: Seq<u8>) -> Option<(Seq<u8>, int)> {
    walk_labels(p, 12, Seq::empty())
}

/// Whether a byte is an upper-case ASCII letter.
pub open spec fn is_upper(c: u8) -> bool {
    65 <= c <= 90
}

/// The facts of a name read part way, that each further label keeps.
pub open spec fn name_shape(name: Seq<u8>) -> bool {
    &&& name.len() <= MAX_NAME_LEN
    &&& forall|i: int| 0 <= i < name.len() ==> !is_upper(#[trigger] name[i])
}

proof fn lemma_walk_labels_shape(p: Seq<u8>, pos: int, name: Seq<u8>)
    requires
        name_shape(name),
        pos >= 0,
    ensures
        walk_labels(p, pos, name) matches Some((n, end)) ==> name_shape(n) && pos < end <= p.len(),
    decreases p.len() - pos,
{
    if 0 <= pos < p.len() && p[pos] != 0 && !(p[pos] > 63 || pos + 1 + p[pos] > p.len()) {
        let label = p.subrange(pos + 1, pos + 1 + p[pos]);
        let next = append_label(name, label);
        if next.len() <= MAX_NAME_LEN {
            assert forall|i: int| 0 <= i < next.len() implies !is_upper(#[trigger] next[i]) by {
                if name.len() == 0 {
                    assert(next[i] == ascii_lower(label[i]));
                } else if i < name.len() {
                    assert(next[i] == name[i]);
                } else if i == name.len() {
                    assert(next[i] == 46u8);
                } else {
                    assert(next[i] == ascii_lower(label[i - name.len() - 1]));
                }
            }
            lemma_walk_labels_shape(p, pos + 1 + p[pos], next);
        }
    }
}

/// A question name read from a packet holds at most `MAX_NAME_LEN` bytes and
/// no upper-case ASCII letter, and the position after it lies within the
/// packet, past the header.
pub proof fn lemma_question_name_shape(p: Seq<u8>)
    ensures
        question_name(p) matches Some((n, end)) ==> name_shape(n) && 12 < end <= p.len(),
{
    lemma_walk_labels_shape(p, 12, Seq::empty());
}

proof fn lemma_walk_labels_ignores_case(p: Seq<u8>, q: Seq<u8>, pos: int, name: Seq<u8>)
    requires
        p.len() == q.len(),
        forall|i: int| 0 <= i < p.len() ==> ascii_lower(#[trigger] p[i]) == ascii_lower(q[i]),
    ensures
        walk_labels(p, pos, name) == walk_labels(q, pos, name),
    decreases p.len() - pos,
{
    if 0 <= pos < p.len() {
        let a = p[pos];
        let b = q[pos];
        assert(ascii_lower(a) == ascii_lower(b));
        if a <= 63 || b <= 63 {
            assert(a == b);
        }
        if a != 0 && a <= 63 && pos + 1 + a <= p.len() {
            let lp = p.subrange(pos + 1, pos + 1 + a);
            let lq = q.subrange(pos + 1, pos + 1 + a);
            assert(lower_all(lp) =~= lower_all(lq)) by {
                assert forall|i: int| 0 <= i < lp.len() implies lower_all(lp)[i] == lower_all(
                    lq,
                )[i] by {
                    assert(ascii_lower(p[pos + 1 + i]) == ascii_lower(q[pos + 1 + i]));
                }
            }
            lemma_walk_labels_ignores_case(p, q, pos + 1 + a, append_label(name, lp));
        }
    }
}

/// Reading a name ignores case: packets that differ only in the case of ASCII
/// letters read as the same name, ending at the same place.
pub proof fn lemma_question_name_ignores_case(p: Seq<u8>, q: Seq<u8>)
    requires
        p.len() == q.len(),
        forall|i: int| 0 <= i < p.len() ==> ascii_lower(#[trigger] p[i]) == ascii_lower(q[i]),
    ensures
        question_name(p) == question_name(q),
{
    lemma_walk_labels_ignores_case(p, q, 12, Seq::empty());
}

proof fn lemma_walk_labels_extend(p: Seq<u8>, t: Seq<u8>, pos: int, name: Seq<u8>)
    ensures
        walk_labels(p, pos, name) is Some ==> walk_labels(p + t, pos, name) == walk_labels(
            p,
            pos,
            name,
        ),
    decreases p.len() - pos,
{
    let pt = p + t;
    if 0 <= pos < p.len() {
        assert(pt[pos] == p[pos]);
        let l = p[pos];
        if l != 0 && !(l > 63 || pos + 1 + l > p.len()) {
            assert(pt.subrange(pos + 1, pos + 1 + l) =~= p.subrange(pos + 1, pos + 1 + l));
            let next = append_label(name, p.subrange(pos + 1, pos + 1 + l));
            lemma_walk_labels_extend(p, t, pos + 1 + l, next);
        }
    }
}

/// Bytes after a name do not change how it reads: where a packet holds a
/// whole name, the packet with any bytes appended reads as the same name,
/// ending at the same place.
pub proof fn lemma_question_name_ignores_trailing_bytes(p: Seq<u8>, t: Seq<u8>)
    ensures
        question_name(p) is Some ==> question_name(p + t) == question_name(p),
{
    lemma_walk_labels_extend(p, t, 12, Seq::empty());
}

proof fn lemma_walk_labels_frame(p: Seq<u8>, q: Seq<u8>, pos: int, name: Seq<u8>)
    requires
        p.len() == q.len(),
        pos >= 12,
        forall|i: int| 12 <= i < p.len() ==> #[trigger] p[i] == q[i],
    ensures
        walk_labels(p, pos, name) == walk_labels(q, pos, name),
    decreases p.len() - pos,
{
    if 0 <= pos < p.len() {
        assert(p[pos] == q[pos]);
        let l = p[pos];
        if l != 0 && !(l > 63 || pos + 1 + l > p.len()) {
            assert(p.subrange(pos + 1, pos + 1 + l) =~= q.subrange(pos + 1, pos + 1 + l));
            let next = append_label(name, p.subrange(pos + 1, pos + 1 + l));
            lemma_walk_labels_frame(p, q, pos + 1 + l, next);
        }
    }
}

/// A name reads from the bytes after the 12-byte header alone: packets of one
/// length that agree from byte 12 on read as the same name.
pub proof fn lemma_question_name_ignores_header(p: Seq<u8>, q: Seq<u8>)
    requires
        p.len() == q.len(),
        forall|i: int| 12 <= i < p.len() ==> #[trigger] p[i] == q[i],
    ensures
        question_name(p) == question_name(q),
{
    lemma_walk_labels_frame(p, q, 12, Seq::empty());
}

/// Where the name read so far stands against the packet: it is the packet's
/// bytes from 13 on, each label byte case-folded and each length byte read as
/// a dot.
pub open spec fn matches_packet(p: Seq<u8>, pos: int, name: Seq<u8>) -> bool {
    &&& (name.len() == 0 ==> pos == 12)
    &&& (name.len() > 0 ==> pos == name.len() + 13)
    &&& forall|i: int|
        0 <= i < name.len() ==> (#[trigger] name[i] == 46u8 && p[13 + i] <= 63) || (if 65
            <= p[13 + i] <= 90 {
            name[i] == p[13 + i] + 32
        } else {
            name[i] == p[13 + i]
        })
}

proof fn lemma_walk_labels_matches_packet(p: Seq<u8>, pos: int, name: Seq<u8>)
    requires
        matches_packet(p, pos, name),
        pos <= p.len(),
    ensures
        walk_labels(p, pos, name) matches Some((n, end)) ==> matches_packet(p, end - 1, n) && p[end
            - 1] == 0,
    decreases p.len() - pos,
{
    if 0 <= pos < p.len() {
        let l = p[pos];
        if l != 0 && !(l > 63 || pos + 1 + l > p.len()) {
            let label = p.subrange(pos + 1, pos + 1 + l);
            let next = append_label(name, label);
            if next.len() <= MAX_NAME_LEN {
                assert forall|i: int| 0 <= i < next.len() implies (#[trigger] next[i] == 46u8 && p[13
                    + i] <= 63) || (if 65 <= p[13 + i] <= 90 {
                    next[i] == p[13 + i] + 32
                } else {
                    next[i] == p[13 + i]
                }) by {
                    if name.len() == 0 {
                        assert(next[i] == ascii_lower(label[i]));
                        assert(label[i] == p[13 + i]);
                    } else if i < name.len() {
                        assert(next[i] == name[i]);
                    } else if i == name.len() {
                        assert(next[i] == 46u8);
                        assert(13 + i == pos);
                    } else {
                        assert(next[i] == ascii_lower(label[i - name.len() - 1]));
                        assert(label[i - name.len() - 1] == p[13 + i]);
                    }
                }
                lemma_walk_labels_matches_packet(p, pos + 1 + l, next);
            }
        }
    }
}

/// What a read name is made of: the packet's bytes from 13 up to the zero byte
/// that ends the name, where each byte is the packet's byte with only the
/// ASCII letters 'A' to 'Z' moved to lower case, except the label length
/// bytes (at most 63), which read as dots.
pub proof fn lemma_question_name_from_packet(p: Seq<u8>)
    ensures
        question_name(p) matches Some((n, end)) ==> {
            &&& (n.len() == 0 ==> end == 13)
            &&& (n.len() > 0 ==> end == n.len() + 14)
            &&& p[end - 1] == 0
            &&& forall|i: int|
                0 <= i < n.len() ==> (#[trigger] n[i] == 46u8 && p[13 + i] <= 63) || (if 65 <= p[13
                    + i] <= 90 {
                    n[i] == p[13 + i] + 32
                } else {
                    n[i] == p[13 + i]
                })
        },
{
    if p.len() >= 12 {
        lemma_walk_labels_matches_packet(p, 12, Seq::empty());
    }
}

/// Reads the name of the question that follows the 12-byte header: gives the
/// name bytes (the first `len` bytes of the array) and the position after the
/// name.
pub fn read_question_name(packet: &[u8]) -> (r: Option<([u8; 253], usize, usize)>)
    ensures
        match r {
            None => question_name(packet@) is None,
            Some((name, len, next)) => {
                &&& len <= MAX_NAME_LEN
                &&& question_name(packet@) == Some((name@.take(len as int), next as int))
            },
        },
{
    if packet.len() < 12 {
        return None;
    }
    let mut name = [0u8; 253];
    let mut len: usize = 0;
    let mut pos: usize = 12;
    assert(name@.take(0) =~= Seq::<u8>::empty());
    loop
        invariant
            12 <= pos <= packet@.len(),
            len <= MAX_NAME_LEN,
            name@.len() == MAX_NAME_LEN,
            question_name(packet@) == walk_labels(packet@, pos as int, name@.take(len as int)),
        decreases packet@.len() - pos,
    {
        if pos >= packet.len() {
            return None;
        }
        let label_len = packet[pos] as usize;
        let ghost read = name@.take(len as int);
        let ghost start = pos + 1;
        pos = pos + 1;
        if label_len == 0 {
            return Some((name, len, pos));
        }
        if label_len > 63 || label_len > packet.len() - pos {
            return None;
        }
        let ghost label = packet@.subrange(start, start + label_len);
        let ghost joined = if read.len() == 0 { read } else { read.push(46u8) };
        if len != 0 {
            if len >= MAX_NAME_LEN {
                return None;
            }
            name[len] = 46u8;
            assert(name@.take(len + 1) =~= read.push(46u8));
            len = len + 1;
        }
        assert(name@.take(len as int) == joined);
        if label_len > MAX_NAME_LEN - len {
            return None;
        }
        let mut k: usize = 0;
        while k < label_len
            invariant
                k <= label_len,
                label_len <= 63,
                pos + label_len <= packet.len(),
                start == pos,
                len == joined.len() + k,
                joined.len() + label_len <= MAX_NAME_LEN,
                name@.len() == MAX_NAME_LEN,
                name@.take(len as int) == joined + lower_all(packet@.subrange(start, start + k)),
            decreases label_len - k,
        {
            let c = ascii_lowercase(packet[pos + k]);
            let ghost before = name@.take(len as int);
            name[len] = c;
            assert(name@.take(len + 1) =~= before.push(c));
            assert(lower_all(packet@.subrange(start, start + k + 1)) =~= lower_all(
                packet@.subrange(start, start + k),
            ).push(c));
            len = len + 1;
            k = k + 1;
        }
        assert(name@.take(len as int) =~= append_label(read, label));
        pos = pos + label_len;
    }
}

/// A big-endian 16-bit number.
pub open spec fn be16(hi: u8, lo: u8) -> u16 {
    (hi as u16 * 256 + lo as u16) as u16
}

/// Puts `s` over the bytes of `b` from `at` on.
pub open spec fn overwrite(b: Seq<u8>, at: int, s: Seq<u8>) -> Seq<u8> {
    b.take(at) + s + b.skip(at + s.len())
}

/// The header of a refusal: response, authoritative, NXDOMAIN, with the ID and
/// the question count of the query and no records.
pub open spec fn refused_header(b: Seq<u8>) -> Seq<u8> {
    b.update(2, 0x84u8).update(3, 0x03u8).update(6, 0u8).update(7, 0u8).update(8, 0u8).update(
        9,
        0u8,
    ).update(10, 0u8).update(11, 0u8)
}

/// The header of an answer: response, authoritative, the query's recursion
/// wish kept, no error, one answer record.
pub open spec fn answered_header(b: Seq<u8>) -> Seq<u8> {
    b.update(2, (b[2] & 1u8) | 0x80u8 | 0x04u8).update(3, b[3] & 1u8).update(6, 0u8).update(
        7,
        1u8,
    ).update(8, 0u8).update(9, 0u8).update(10, 0u8).update(11, 0u8)
}

/// An A record for the question's name (a pointer to offset 12), class IN,
/// a time to live of 60 seconds, and a four-byte address.
pub open spec fn a_record(addr: Seq<u8>) -> Seq<u8> {
    seq![0xc0u8, 0x0cu8, 0u8, 1u8, 0u8, 1u8, 0u8, 0u8, 0u8, 60u8, 0u8, 4u8, addr[0], addr[1], addr[2], addr[3]]
}

/// A query turned into the answer `addr`, with the record written at
/// `question_end`.
pub open spec fn answered(b: Seq<u8>, question_end: int, addr: Seq<u8>) -> Seq<u8> {
    overwrite(answered_header(b), question_end, a_record(addr))
}

/// Writes the header of a refusal over the header of the query in `buf`.
pub fn write_refused_header(buf: &mut [u8])
    requires
        old(buf)@.len() >= 12,
    ensures
        final(buf)@ == refused_header(old(buf)@),
{
    buf[2] = 0x84;
    buf[3] = 0x03;
    buf[6] = 0;
    buf[7] = 0;
    buf[8] = 0;
    buf[9] = 0;
    buf[10] = 0;
    buf[11] = 0;
    assert(buf@ =~= refused_header(old(buf)@));
}

/// Writes the header of an answer over the header of the query in `buf`.
pub fn write_answered_header(buf: &mut [u8])
    requires
        old(buf)@.len() >= 12,
    ensures
        final(buf)@ == answered_header(old(buf)@),
{
    buf[2] = (buf[2] & 1) | 0x80 | 0x04;
    buf[3] = buf[3] & 1;
    buf[6] = 0;
    buf[7] = 1;
    buf[8] = 0;
    buf[9] = 0;
    buf[10] = 0;
    buf[11] = 0;
    assert(buf@ =~= answered_header(old(buf)@));
}

/// Writes the A record for `addr` at `pos`.
pub fn write_a_record(buf: &mut [u8], pos: usize, addr: [u8; 4])
    requires
        pos + 16 <= old(buf)@.len(),
    ensures
        final(buf)@ == overwrite(old(buf)@, pos as int, a_record(addr@)),
{
    // A pointer to the question's name, type A, class IN, a TTL of 60
    // seconds, and four bytes of address.
    let record: [u8; 16] = [
        0xc0, 0x0c, 0, 1, 0, 1, 0, 0, 0, 60, 0, 4, addr[0], addr[1], addr[2], addr[3],
    ];
    assert(record@ =~= a_record(addr@));
    let capacity = buf.len();
    let mut k: usize = 0;
    assert(buf@ =~= old(buf)@.take(pos as int) + record@.take(0) + old(buf)@.skip(pos as int));
    while k < 16
        invariant
            k <= 16,
            pos + 16 <= capacity,
            capacity == old(buf)@.len(),
            buf@ =~= old(buf)@.take(pos as int) + record@.take(k as int) + old(buf)@.skip(pos + k),
        decreases 16 - k,
    {
        buf[pos + k] = record[k];
        assert(record@.take(k + 1) =~= record@.take(k as int).push(record@[k as int]));
        k = k + 1;
        assert(buf@ =~= old(buf)@.take(pos as int) + record@.take(k as int) + old(buf)@.skip(
            pos + k,
        ));
    }
    assert(record@.take(16) =~= record@);
}

/// An answer keeps the query's ID, question count and question, marks itself a
/// response that holds one record (its response code is the lowest bit of the
/// query's fourth byte, which a query leaves zero), and carries the address in
/// the record that follows the question; the bytes after the record are kept.
pub proof fn lemma_answer_keeps_query(b: Seq<u8>, question_end: int, addr: Seq<u8>)
    requires
        12 <= question_end,
        question_end + 16 <= b.len(),
        addr.len() == 4,
    ensures
        ({
            let r = answered(b, question_end, addr);
            &&& r.len() == b.len()
            &&& r.subrange(0, 2) == b.subrange(0, 2)
            &&& r.subrange(4, 6) == b.subrange(4, 6)
            &&& r.subrange(12, question_end) == b.subrange(12, question_end)
            &&& r[2] & 0x80u8 == 0x80u8
            &&& r[2] & 1u8 == b[2] & 1u8
            &&& r[3] & 0x0fu8 == b[3] & 1u8
            &&& r[6] == 0u8 && r[7] == 1u8
            &&& r.subrange(8, 12) == seq![0u8, 0u8, 0u8, 0u8]
            &&& r.subrange(question_end + 12, question_end + 16) == addr
            &&& r.skip(question_end + 16) == b.skip(question_end + 16)
        }),
{
    let r = answered(b, question_end, addr);
    let h = answered_header(b);
    let x = b[2];
    let y = b[3];
    assert(((x & 1u8) | 0x80u8 | 0x04u8) & 0x80u8 == 0x80u8) by (bit_vector);
    assert(((x & 1u8) | 0x80u8 | 0x04u8) & 1u8 == x & 1u8) by (bit_vector);
    assert((y & 1u8) & 0x0fu8 == y & 1u8) by (bit_vector);
    assert(r.subrange(0, 2) =~= b.subrange(0, 2));
    assert(r.subrange(4, 6) =~= b.subrange(4, 6));
    assert(r.subrange(12, question_end) =~= b.subrange(12, question_end));
    assert(r.subrange(8, 12) =~= seq![0u8, 0u8, 0u8, 0u8]);
    assert(r.subrange(question_end + 12, question_end + 16) =~= addr);
    assert(r.skip(question_end + 16) =~= b.skip(question_end + 16));
    assert(r[2] == h[2]);
    assert(r[3] == h[3]);
    assert(r[6] == h[6]);
    assert(r[7] == h[7]);
    assert(r[3] == y & 1u8);
}

/// A refusal keeps the query's ID, question count and all that follows the
/// header, marks itself an authoritative response with NXDOMAIN, and holds no
/// records.
pub proof fn lemma_refusal_keeps_query(b: Seq<u8>)
    requires
        b.len() >= 12,
    ensures
        ({
            let r = refused_header(b);
            &&& r.len() == b.len()
            &&& r.subrange(0, 2) == b.subrange(0, 2)
            &&& r.subrange(4, 6) == b.subrange(4, 6)
            &&& r.skip(12) == b.skip(12)
            &&& r[2] & 0x80u8 == 0x80u8
            &&& r[3] & 0x0fu8 == 3u8
            &&& r.subrange(6, 12) == seq![0u8, 0u8, 0u8, 0u8, 0u8, 0u8]
        }),
{
    let r = refused_header(b);
    assert(0x84u8 & 0x80u8 == 0x80u8) by (bit_vector);
    assert(0x03u8 & 0x0fu8 == 3u8) by (bit_vector);
    assert(r.subrange(0, 2) =~= b.subrange(0, 2));
    assert(r.subrange(4, 6) =~= b.subrange(4, 6));
    assert(r.skip(12) =~= b.skip(12));
    assert(r.subrange(6, 12) =~= seq![0u8, 0u8, 0u8, 0u8, 0u8, 0u8]);
}

} // verus!
