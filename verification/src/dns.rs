//! The DNS service: a query is parsed, an A query for a local host is answered
//! in place, and every other A query is forwarded upstream.
pub mod policy;
pub mod query;
pub mod server;

use vstd::prelude::*;
use vstd::slice::slice_subrange;
use crate::text::{find_host, host_entries, lemma_find_host_only_listed, lookup_host, text_or_blank, text_or_empty};
use crate::wire::{
    MAX_NAME_LEN, answered, be16, lemma_question_name_ignores_header,
    lemma_question_name_ignores_trailing_bytes, lemma_question_name_shape, name_shape, question_name,
    read_question_name, refused_header, write_a_record, write_answered_header, write_refused_header,
};

verus! {

/// The question of a query: its name (lower case, dotted), where the question
/// ends, and the type it asks for.
pub struct Query {
    name: [u8; 253],
    len: usize,
    end: usize,
    qtype: u16,
}

impl Query {
    #[verifier::type_invariant]
    spec fn name_fits(self) -> bool {
        self.len <= MAX_NAME_LEN
    }
}

impl View for Query {
    /// The name bytes, the position after the question, the question type.
    type V = (Seq<u8>, int, u16);

    closed spec fn view(&self) -> (Seq<u8>, int, u16) {
        (self.name@.take(self.len as int), self.end as int, self.qtype)
    }
}

/// What a query reads as: a query (QR bit clear) of at least 17 bytes with one
/// question, whose name reads, followed by a type and the class IN.
pub open spec fn parse_spec(p: Seq<u8>) -> Option<(Seq<u8>, int, u16)> {
    if p.len() < 17 || p[2] & 0x80u8 != 0 || p[4] != 0 || p[5] != 1 {
        None
    } else {
        match question_name(p) {
            None => None,
            Some((name, pos)) => {
                if pos + 4 > p.len() || be16(p[pos + 2], p[pos + 3]) != 1 {
                    None
                } else {
                    Some((name, pos + 4, be16(p[pos], p[pos + 1])))
                }
            },
        }
    }
}

/// Bytes after the question, such as additional records, neither reject a
/// query nor change what it reads as.
pub proof fn lemma_parse_ignores_trailing_bytes(p: Seq<u8>, t: Seq<u8>)
    ensures
        parse_spec(p) is Some ==> parse_spec(p + t) == parse_spec(p),
{
    lemma_question_name_ignores_trailing_bytes(p, t);
    lemma_question_name_shape(p);
    let pt = p + t;
    if parse_spec(p) is Some {
        assert(pt[2] == p[2] && pt[4] == p[4] && pt[5] == p[5]);
        let (name, pos) = question_name(p).unwrap();
        assert(pt[pos] == p[pos] && pt[pos + 1] == p[pos + 1]);
        assert(pt[pos + 2] == p[pos + 2] && pt[pos + 3] == p[pos + 3]);
    }
}

/// Of the header, only the QR bit and the question count matter: packets of
/// one length that agree on the QR bit, on bytes 4 and 5 and on every byte
/// from 12 on read alike, whatever their ID, flags in byte 3 (such as AD and
/// CD) or other counts.
pub proof fn lemma_parse_reads_only_qr_and_question(p: Seq<u8>, q: Seq<u8>)
    requires
        p.len() == q.len(),
        p.len() >= 6 ==> p[2] & 0x80u8 == q[2] & 0x80u8 && p[4] == q[4] && p[5] == q[5],
        forall|i: int| 12 <= i < p.len() ==> #[trigger] p[i] == q[i],
    ensures
        parse_spec(p) == parse_spec(q),
{
    lemma_question_name_ignores_header(p, q);
    if p.len() >= 17 {
        if let Some((name, pos)) = question_name(p) {
            lemma_question_name_shape(p);
            if pos + 4 <= p.len() {
                assert(p[pos] == q[pos] && p[pos + 1] == q[pos + 1]);
                assert(p[pos + 2] == q[pos + 2] && p[pos + 3] == q[pos + 3]);
            }
        }
    }
}

impl Query {
    /// The queried name as text; a name that is not UTF-8 reads as empty.
    pub fn name(&self) -> (r: &str)
        ensures
            r@ == text_or_empty(self@.0),
    {
        proof {
            use_type_invariant(self);
        }
        text_or_blank(slice_subrange(self.name.as_slice(), 0, self.len))
    }
}

fn read_be16(hi: u8, lo: u8) -> (r: u16)
    ensures
        r == be16(hi, lo),
{
    (hi as u16) * 256 + (lo as u16)
}

/// Reads the question of a query packet.
pub fn parse(packet: &[u8]) -> (r: Option<Query>)
    ensures
        match r {
            None => parse_spec(packet@) is None,
            Some(q) => {
                &&& parse_spec(packet@) == Some(q@)
                &&& name_shape(q@.0)
                &&& 17 <= q@.1 <= packet@.len()
            },
        },
{
    proof {
        lemma_question_name_shape(packet@);
    }
    // Header must be at least 12 bytes + 5 bytes min for QNAME/QTYPE/QCLASS
    if packet.len() < 17 {
        return None;
    }
    // Must be a query (QR bit = 0)
    if packet[2] & 0x80 != 0 {
        return None;
    }
    // QDCOUNT must be 1
    if packet[4] != 0 || packet[5] != 1 {
        return None;
    }
    let (name, len, pos) = match read_question_name(packet) {
        Some(read) => read,
        None => return None,
    };
    if pos > packet.len() || packet.len() - pos < 4 {
        return None;
    }
    let qtype = read_be16(packet[pos], packet[pos + 1]);
    let qclass = read_be16(packet[pos + 2], packet[pos + 3]);
    if qclass != 1 {
        return None;
    }
    Some(Query { name, len, end: pos + 4, qtype })
}

/// The host names that are answered locally, with their addresses.
pub open spec fn local_hosts_spec() -> Seq<(Seq<char>, Seq<u8>)> {
    seq![("server.lan"@, seq![192u8, 168u8, 86u8, 89u8])]
}

fn local_hosts() -> (t: Vec<(&'static str, [u8; 4])>)
    ensures
        host_entries(t@) == local_hosts_spec(),
{
    let addr: [u8; 4] = [192, 168, 86, 89];
    assert(addr@ =~= seq![192u8, 168u8, 86u8, 89u8]);
    let t = vec![("server.lan", addr)];
    assert(host_entries(t@) =~= local_hosts_spec());
    t
}

/// The local address of a host name, if it is one of the local hosts.
pub fn local(name: &str) -> (r: Option<[u8; 4]>)
    ensures
        match r {
            Some(a) => find_host(local_hosts_spec(), name@, 0) == Some(a@),
            None => find_host(local_hosts_spec(), name@, 0) is None,
        },
        r matches Some(a) ==> exists|i: int|
            0 <= i < local_hosts_spec().len() && #[trigger] local_hosts_spec()[i] == (name@, a@),
{
    proof {
        lemma_find_host_only_listed(local_hosts_spec(), name@, 0);
    }
    let table = local_hosts();
    lookup_host(&table, name)
}

/// Turns the query in `buf` into a reply: with an address, an answer whose A
/// record is written at `question_end` (if it fits); without one, a refusal.
/// Gives the length of the reply.
pub fn answer(buf: &mut [u8], question_end: usize, addr: Option<[u8; 4]>) -> (r: Option<usize>)
    requires
        addr is None ==> old(buf)@.len() >= 12,
    ensures
        match addr {
            None => r == Some(question_end) && final(buf)@ == refused_header(old(buf)@),
            Some(a) => if question_end + 16 <= old(buf)@.len() {
                r == Some((question_end + 16) as usize) && final(buf)@ == answered(
                    old(buf)@,
                    question_end as int,
                    a@,
                )
            } else {
                r is None && final(buf)@ == old(buf)@
            },
        },
{
    match addr {
        None => {
            write_refused_header(buf);
            Some(question_end)
        },
        Some(addr) => {
            let capacity = buf.len();
            let end = match question_end.checked_add(16) {
                Some(end) => end,
                None => return None,
            };
            if end > capacity {
                return None;
            }
            write_answered_header(buf);
            write_a_record(buf, question_end, addr);
            assert(buf@ =~= answered(old(buf)@, question_end as int, addr@));
            Some(end)
        },
    }
}

/// What the server does with a query: drop it, send back the first bytes of
/// the buffer, or forward the query upstream and relay the upstream reply.
#[derive(PartialEq, Eq, Structural, Debug, Clone, Copy)]
pub enum Reply {
    Drop,
    Send(usize),
    Forward,
}

/// Decides the reply to a parsed query held in `buf`: only A queries are
/// served; a local host is answered in place, any other name is forwarded.
pub fn serve_reply(buf: &mut [u8], query: &Query) -> (r: Reply)
    ensures
        query@.2 != 1 ==> r == Reply::Drop && final(buf)@ == old(buf)@,
        query@.2 == 1 ==> match find_host(local_hosts_spec(), text_or_empty(query@.0), 0) {
            Some(a) => if query@.1 + 16 <= old(buf)@.len() {
                r == Reply::Send((query@.1 + 16) as usize) && final(buf)@ == answered(
                    old(buf)@,
                    query@.1,
                    a,
                )
            } else {
                r == Reply::Drop && final(buf)@ == old(buf)@
            },
            None => r == Reply::Forward && final(buf)@ == old(buf)@,
        },
{
    if query.qtype != 1 {
        // not an A query: nothing more to do
        return Reply::Drop;
    }
    match local(query.name()) {
        Some(addr) => match answer(buf, query.end, Some(addr)) {
            Some(len) => Reply::Send(len),
            None => Reply::Drop,
        },
        None => Reply::Forward,
    }
}

} // verus!
