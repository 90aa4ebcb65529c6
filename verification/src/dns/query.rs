//! The question of a query as the forwarding server reads it.
use vstd::prelude::*;
use vstd::slice::slice_subrange;
use crate::dns::parse_spec;
use crate::text::{text_or_blank, text_or_empty};
use crate::wire::{
    MAX_NAME_LEN, lemma_question_name_ignores_header, lemma_question_name_ignores_trailing_bytes,
    lemma_question_name_shape, name_shape, question_name, read_question_name,
};

verus! {

/// The question of a query: its name (lower case, dotted) and the position
/// after the question's type and class.
pub struct DnsQuery {
    name: [u8; 253],
    name_len: usize,
    pub question_end: usize,
}

/// What a query reads as: a query (QR bit clear) of at least 12 bytes with one
/// question, whose name reads and is followed by four bytes of type and class.
pub open spec fn dns_query_spec(p: Seq<u8>) -> Option<(Seq<u8>, int)> {
    if p.len() < 12 || p[2] & 0x80u8 != 0 || p[4] != 0 || p[5] != 1 {
        None
    } else {
        match question_name(p) {
            None => None,
            Some((name, pos)) => if pos + 4 > p.len() {
                None
            } else {
                Some((name, pos + 4))
            },
        }
    }
}

/// Where the strict parser reads a query, this parser reads the same name and
/// the same end of the question.
pub proof fn lemma_parsers_agree(p: Seq<u8>)
    ensures
        parse_spec(p) matches Some((name, end, _)) ==> dns_query_spec(p) == Some((name, end)),
{
}

/// Bytes after the question, such as additional records, neither reject a
/// query nor change its name or the end of its question.
pub proof fn lemma_dns_query_ignores_trailing_bytes(p: Seq<u8>, t: Seq<u8>)
    ensures
        dns_query_spec(p) is Some ==> dns_query_spec(p + t) == dns_query_spec(p),
{
    lemma_question_name_ignores_trailing_bytes(p, t);
    let pt = p + t;
    if dns_query_spec(p) is Some {
        assert(pt[2] == p[2] && pt[4] == p[4] && pt[5] == p[5]);
    }
}

/// Of the header, only the QR bit and the question count matter: packets of
/// one length that agree on the QR bit, on bytes 4 and 5 and on every byte
/// from 12 on read alike, whatever their ID, flags in byte 3 (such as AD and
/// CD) or other counts.
pub proof fn lemma_dns_query_reads_only_qr_and_question(p: Seq<u8>, q: Seq<u8>)
    requires
        p.len() == q.len(),
        p.len() >= 6 ==> p[2] & 0x80u8 == q[2] & 0x80u8 && p[4] == q[4] && p[5] == q[5],
        forall|i: int| 12 <= i < p.len() ==> #[trigger] p[i] == q[i],
    ensures
        dns_query_spec(p) == dns_query_spec(q),
{
    lemma_question_name_ignores_header(p, q);
}

impl View for DnsQuery {
    /// The name bytes and the position after the question.
    type V = (Seq<u8>, int);

    closed spec fn view(&self) -> (Seq<u8>, int) {
        (self.name@.take(self.name_len as int), self.question_end as int)
    }
}

impl DnsQuery {
    /// The name's length is within the name buffer.
    pub closed spec fn wf(&self) -> bool {
        self.name_len <= MAX_NAME_LEN
    }

    /// The position after the question: where an answer record goes.
    pub fn question_end(&self) -> (r: usize)
        ensures
            r == self@.1,
    {
        self.question_end
    }

    /// The queried name as text; a name that is not UTF-8 reads as empty.
    pub fn name(&self) -> (r: &str)
        requires
            self.wf(),
        ensures
            r@ == text_or_empty(self@.0),
    {
        text_or_blank(slice_subrange(self.name.as_slice(), 0, self.name_len))
    }

    /// Reads the question of a query packet.
    pub fn parse(packet: &[u8]) -> (r: Option<Self>)
        ensures
            match r {
                None => dns_query_spec(packet@) is None,
                Some(q) => {
                    &&& q.wf()
                    &&& dns_query_spec(packet@) == Some(q@)
                    &&& name_shape(q@.0)
                    &&& 17 <= q@.1 <= packet@.len()
                },
            },
    {
        proof {
            lemma_question_name_shape(packet@);
        }
        if packet.len() < 12 || packet[2] & 0x80 != 0 || packet[4] != 0 || packet[5] != 1 {
            return None;
        }
        let (name, name_len, pos) = match read_question_name(packet) {
            Some(read) => read,
            None => return None,
        };
        if pos > packet.len() || packet.len() - pos < 4 {
            return None;
        }
        Some(Self { name, name_len, question_end: pos + 4 })
    }
}

} // verus!
