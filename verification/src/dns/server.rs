//! The forwarding server with a block list: local hosts are answered, blocked
//! names refused, everything else forwarded upstream.
use vstd::prelude::*;
use crate::dns::Reply;
use crate::dns::policy::{blocked_by, blocked_spec, is_blocked, local_mapping, local_mappings_spec};
use crate::dns::query::DnsQuery;
use crate::text::{find_host, text_or_empty};
use crate::wire::{answered, refused_header, write_a_record, write_answered_header, write_refused_header};

verus! {

/// Turns the query in `buf` into a reply: with an address, an answer whose A
/// record is written at `question_end` (if it fits); without one, a refusal.
/// Gives the length of the reply.
pub fn respond(buf: &mut [u8], question_end: usize, answer: Option<[u8; 4]>) -> (r: Option<usize>)
    requires
        answer is None ==> old(buf)@.len() >= 12,
    ensures
        match answer {
            None => r == Some(question_end) && final(buf)@ == refused_header(old(buf)@),
            Some(a) => if question_end + 16 <= old(buf)@.len() {
                r == Some((question_end + 16) as usize) && final(buf)@ == answered(
                    old(buf)@,
                    question_end as int,
                    a@,
                )
            } else {
                r is None && final(buf)@ == old(buf)@
            },
        },
{
    match answer {
        None => {
            write_refused_header(buf);
            Some(question_end)
        },
        Some(addr) => {
            let capacity = buf.len();
            let total_len = match question_end.checked_add(16) {
                Some(total_len) => total_len,
                None => return None,
            };
            if total_len > capacity {
                return None;
            }
            write_answered_header(buf);
            write_a_record(buf, question_end, addr);
            assert(buf@ =~= answered(old(buf)@, question_end as int, addr@));
            Some(total_len)
        },
    }
}

/// Decides the reply to a parsed query held in `buf`: a local host is answered
/// in place, a blocked name is refused, any other name is forwarded.
pub fn server_reply(buf: &mut [u8], query: &DnsQuery) -> (r: Reply)
    requires
        query.wf(),
        12 <= old(buf)@.len(),
        query@.1 <= old(buf)@.len(),
    ensures
        ({
            let name = text_or_empty(query@.0);
            match find_host(local_mappings_spec(), name, 0) {
                Some(a) => if query@.1 + 16 <= old(buf)@.len() {
                    r == Reply::Send((query@.1 + 16) as usize) && final(buf)@ == answered(
                        old(buf)@,
                        query@.1,
                        a,
                    )
                } else {
                    r == Reply::Drop && final(buf)@ == old(buf)@
                },
                None => if blocked_by(blocked_spec(), vstd::utf8::encode_utf8(name)) {
                    r == Reply::Send(query@.1 as usize) && final(buf)@ == refused_header(old(buf)@)
                } else {
                    r == Reply::Forward && final(buf)@ == old(buf)@
                },
            }
        }),
{
    let name = query.name();
    if let Some(addr) = local_mapping(name) {
        return match respond(buf, query.question_end(), Some(addr)) {
            Some(n) => Reply::Send(n),
            None => Reply::Drop,
        };
    }
    if is_blocked(name) {
        return match respond(buf, query.question_end(), None) {
            Some(n) => Reply::Send(n),
            None => Reply::Drop,
        };
    }
    Reply::Forward
}

} // verus!
